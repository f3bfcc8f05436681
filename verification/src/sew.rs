//! Sewing and unsewing: identifying, or separating, two cells along an
//! involution, dart by dart along equal paths.

use crate::dart::{Alphas, Dart, GMapError};
use crate::gmap::GMap;
use crate::listing::{covered, listed};
use crate::model::GMapView;
use crate::orbit::{all_false, dart_seq, listing_darts, listing_paths};
use crate::shortlex::{shortlex_le, shortlex_lt};
use vstd::prelude::*;

verus! {

/// Some position holds `x` in `xs` and `y` in `ys`.
pub open spec fn paired(xs: Seq<int>, ys: Seq<int>, x: int, y: int) -> bool {
    exists|m: int| 0 <= m < xs.len() && 0 <= m < ys.len() && #[trigger] xs[m] == x && ys[m] == y
}

impl GMapView {
    /// The walks from `d0` and from `d1` along the involutions two or more
    /// apart from `i` have one structure: two paths meet from `d0` exactly
    /// when they meet from `d1`.
    pub open spec fn sew_matched(self, i: int, d0: int, d1: int) -> bool {
        forall|p: Seq<int>, q: Seq<int>|
            #![trigger self.walk(d0, p), self.walk(d0, q)]
            #![trigger self.walk(d1, p), self.walk(d1, q)]
            self.path_in(Alphas::spec_apart(i), p) && self.path_in(Alphas::spec_apart(i), q) ==> (
            self.walk(d0, p) == self.walk(d0, q) <==> self.walk(d1, p) == self.walk(d1, q))
    }

    /// The cells at `d0` and `d1` can be sewn along `alpha_i`: they have one
    /// structure, share no dart, and all their darts are `i`-free.
    pub open spec fn sewable(self, i: int, d0: int, d1: int) -> bool {
        &&& self.sew_matched(i, d0, d1)
        &&& forall|e: int|
            #![trigger self.reaches(Alphas::spec_apart(i), d0, e)]
            #![trigger self.reaches(Alphas::spec_apart(i), d1, e)]
            self.reaches(Alphas::spec_apart(i), d0, e) || self.reaches(Alphas::spec_apart(i), d1, e)
                ==> self.is_free(e, i)
        &&& forall|e: int|
            !(#[trigger] self.reaches(Alphas::spec_apart(i), d0, e) && self.reaches(
                Alphas::spec_apart(i),
                d1,
                e,
            ))
    }

    /// The cell at `d` can be unsewn along `alpha_i`: no dart of it is the
    /// image under `alpha_i` of a dart of it.
    pub open spec fn unsewable(self, i: int, d: int) -> bool {
        forall|e: int|
            #[trigger] self.reaches(Alphas::spec_apart(i), d, e) ==> !self.reaches(
                Alphas::spec_apart(i),
                d,
                self.al(e, i),
            )
    }

    /// The map with `xs[k]` and `ys[k]` linked by `alpha_i`, for every `k`.
    pub open spec fn linked_all(self, i: int, xs: Seq<int>, ys: Seq<int>) -> GMapView
        decreases xs.len(),
    {
        if xs.len() == 0 || ys.len() == 0 {
            self
        } else {
            self.linked_all(i, xs.drop_last(), ys.drop_last()).linked(i, xs.last(), ys.last())
        }
    }

    /// The map with every dart of `xs` unlinked from its image under
    /// `alpha_i`.
    pub open spec fn unlinked_all(self, i: int, xs: Seq<int>) -> GMapView
        decreases xs.len(),
    {
        if xs.len() == 0 {
            self
        } else {
            self.unlinked_all(i, xs.drop_last()).unlinked(i, xs.last())
        }
    }

    /// Every image of a pair under an involution two or more apart from `i`
    /// is a pair again.
    pub open spec fn pairs_closed(self, i: int, xs: Seq<int>, ys: Seq<int>) -> bool {
        forall|k: int, j: int|
            0 <= k < xs.len() && self.has_index(j) && Alphas::spec_apart(i).contains(j) ==> paired(
                xs,
                ys,
                #[trigger] self.al(xs[k], j),
                self.al(ys[k], j),
            )
    }

    /// What makes a list of pairs fit to be linked: darts of the map, free
    /// and live, no dart twice.
    pub open spec fn pairs_free(self, i: int, xs: Seq<int>, ys: Seq<int>) -> bool {
        &&& xs.len() == ys.len()
        &&& forall|k: int|
            0 <= k < xs.len() ==> self.live(#[trigger] xs[k]) && self.is_free(xs[k], i)
        &&& forall|k: int|
            0 <= k < ys.len() ==> self.live(#[trigger] ys[k]) && self.is_free(ys[k], i)
        &&& forall|k1: int, k2: int|
            0 <= k1 < k2 < xs.len() ==> #[trigger] xs[k1] != #[trigger] xs[k2]
        &&& forall|k1: int, k2: int|
            0 <= k1 < k2 < ys.len() ==> #[trigger] ys[k1] != #[trigger] ys[k2]
        &&& forall|k1: int, k2: int|
            0 <= k1 < xs.len() && 0 <= k2 < ys.len() ==> #[trigger] xs[k1] != #[trigger] ys[k2]
    }

    /// Walks over a mask agree in two maps that agree on the involutions of
    /// the mask.
    pub proof fn lemma_walk_agree(self, other: GMapView, a: Alphas, d: int, p: Seq<int>)
        requires
            self.shaped(),
            self.has_dart(d),
            self.path_in(a, p),
            other.dimension == self.dimension,
            forall|x: int, j: int|
                self.has_dart(x) && self.has_index(j) && a.contains(j) ==> #[trigger] other.al(x, j)
                    == self.al(x, j),
        ensures
            other.walk(d, p) == self.walk(d, p),
            other.path_in(a, p),
        decreases p.len(),
    {
        if p.len() > 0 {
            self.lemma_path_in_drop_last(a, p);
            self.lemma_walk_agree(other, a, d, p.drop_last());
            self.lemma_walk_has_dart(a, d, p.drop_last());
        }
        assert forall|k: int| 0 <= k < p.len() implies other.has_index(#[trigger] p[k])
            && a.contains(p[k]) by {
            assert(self.has_index(p[k]));
        }
    }

    /// The enumeration of an orbit is the same in two maps that agree on the
    /// involutions of the mask.
    pub proof fn lemma_listing_agree(
        self,
        other: GMapView,
        a: Alphas,
        d: int,
        paths: Seq<Seq<int>>,
        darts: Seq<int>,
    )
        requires
            self.shaped(),
            other.shaped(),
            self.has_dart(d),
            other.dimension == self.dimension,
            other.ndarts() == self.ndarts(),
            forall|x: int, j: int|
                self.has_dart(x) && self.has_index(j) && a.contains(j) ==> #[trigger] other.al(x, j)
                    == self.al(x, j),
            self.lists_orbit(a, d, paths, darts),
        ensures
            other.lists_orbit(a, d, paths, darts),
    {
        assert forall|k: int| 0 <= k < darts.len() implies other.path_in(a, #[trigger] paths[k])
            && other.walk(d, paths[k]) == darts[k] by {
            self.lemma_walk_agree(other, a, d, paths[k]);
        }
        assert forall|q: Seq<int>| other.path_in(a, q) implies #[trigger] covered(
            paths,
            darts,
            other.walk(d, q),
            q,
        ) by {
            assert forall|x: int, j: int|
                other.has_dart(x) && other.has_index(j) && a.contains(j) implies #[trigger] self.al(
                x,
                j,
            ) == other.al(x, j) by {
                assert(other.al(x, j) == self.al(x, j));
            }
            other.lemma_walk_agree(self, a, d, q);
            assert(covered(paths, darts, self.walk(d, q), q));
        }
    }

    /// Within a cell, darts are `i`-free together.
    pub proof fn lemma_free_together(self, i: int, d: int, p: Seq<int>)
        requires
            self.valid(),
            self.has_index(i),
            self.has_dart(d),
            self.path_in(Alphas::spec_apart(i), p),
        ensures
            self.is_free(self.walk(d, p), i) == self.is_free(d, i),
            self.walk(self.al(d, i), p) == self.al(self.walk(d, p), i),
        decreases p.len(),
    {
        if p.len() > 0 {
            let a = Alphas::spec_apart(i);
            self.lemma_path_in_drop_last(a, p);
            let q = p.drop_last();
            let j = p.last();
            self.lemma_free_together(i, d, q);
            self.lemma_walk_has_dart(a, d, q);
            Alphas::lemma_apart(i);
            let e = self.walk(d, q);
            assert(a.contains(j));
            assert(j + 2 <= i || i + 2 <= j);
            self.lemma_commutation(e, i, j);
            assert(self.al(self.al(e, j), i) == self.al(self.al(e, i), j));
            assert(self.has_dart(self.al(e, j)));
            assert(self.has_dart(self.al(e, i)));
            if self.al(self.al(e, j), i) == self.al(e, j) {
                assert(self.al(self.al(self.al(e, i), j), j) == self.al(e, i));
                assert(self.al(self.al(e, j), j) == e);
            }
        }
    }
}

} // verus!

verus! {

impl GMapView {
    /// Pairs that start at `(d0, d1)` and are closed under the involutions of
    /// the mask hold the two ends of every path.
    pub proof fn lemma_pairs_follow(
        self,
        i: int,
        d0: int,
        d1: int,
        xs: Seq<int>,
        ys: Seq<int>,
        p: Seq<int>,
    )
        requires
            xs.len() == ys.len(),
            xs.len() >= 1,
            xs[0] == d0,
            ys[0] == d1,
            self.pairs_closed(i, xs, ys),
            self.path_in(Alphas::spec_apart(i), p),
        ensures
            paired(xs, ys, self.walk(d0, p), self.walk(d1, p)),
        decreases p.len(),
    {
        if p.len() == 0 {
            assert(xs[0] == self.walk(d0, p) && ys[0] == self.walk(d1, p));
        } else {
            let a = Alphas::spec_apart(i);
            self.lemma_path_in_drop_last(a, p);
            let q = p.drop_last();
            let j = p.last();
            self.lemma_pairs_follow(i, d0, d1, xs, ys, q);
            let m = choose|m: int|
                0 <= m < xs.len() && 0 <= m < ys.len() && #[trigger] xs[m] == self.walk(d0, q)
                    && ys[m] == self.walk(d1, q);
            assert(paired(xs, ys, self.al(xs[m], j), self.al(ys[m], j)));
        }
    }

    /// Closed pairs without repetition show that the two cells have one
    /// structure.
    pub proof fn lemma_pairs_matched(self, i: int, d0: int, d1: int, xs: Seq<int>, ys: Seq<int>)
        requires
            xs.len() == ys.len(),
            xs.len() >= 1,
            xs[0] == d0,
            ys[0] == d1,
            self.pairs_closed(i, xs, ys),
            forall|k1: int, k2: int|
                0 <= k1 < k2 < xs.len() ==> #[trigger] xs[k1] != #[trigger] xs[k2],
            forall|k1: int, k2: int|
                0 <= k1 < k2 < ys.len() ==> #[trigger] ys[k1] != #[trigger] ys[k2],
        ensures
            self.sew_matched(i, d0, d1),
    {
        let a = Alphas::spec_apart(i);
        assert forall|p: Seq<int>, q: Seq<int>|
            #![trigger self.walk(d0, p), self.walk(d0, q)]
            #![trigger self.walk(d1, p), self.walk(d1, q)]
            self.path_in(a, p) && self.path_in(a, q) implies (self.walk(d0, p) == self.walk(d0, q)
            <==> self.walk(d1, p) == self.walk(d1, q)) by {
            self.lemma_pairs_follow(i, d0, d1, xs, ys, p);
            self.lemma_pairs_follow(i, d0, d1, xs, ys, q);
            let m1 = choose|m: int|
                0 <= m < xs.len() && 0 <= m < ys.len() && #[trigger] xs[m] == self.walk(d0, p)
                    && ys[m] == self.walk(d1, p);
            let m2 = choose|m: int|
                0 <= m < xs.len() && 0 <= m < ys.len() && #[trigger] xs[m] == self.walk(d0, q)
                    && ys[m] == self.walk(d1, q);
            if m1 < m2 {
                assert(xs[m1] != xs[m2]);
                assert(ys[m1] != ys[m2]);
            }
            if m2 < m1 {
                assert(xs[m2] != xs[m1]);
                assert(ys[m2] != ys[m1]);
            }
        }
    }

    /// When two cells have one structure, their enumerations go along the
    /// same paths, and their darts pair up, closed under the involutions of
    /// the mask.
    pub proof fn lemma_matched_listing(
        self,
        i: int,
        d0: int,
        d1: int,
        paths0: Seq<Seq<int>>,
        xs: Seq<int>,
        paths1: Seq<Seq<int>>,
        ys: Seq<int>,
    )
        requires
            self.sew_matched(i, d0, d1),
            self.lists_orbit(Alphas::spec_apart(i), d0, paths0, xs),
            self.lists_orbit(Alphas::spec_apart(i), d1, paths1, ys),
        ensures
            paths0 == paths1,
            xs.len() == ys.len(),
            self.pairs_closed(i, xs, ys),
    {
        let a = Alphas::spec_apart(i);
        let zs = Seq::new(xs.len(), |k: int| self.walk(d1, paths0[k]));
        assert(self.lists_orbit(a, d1, paths0, zs)) by {
            assert forall|k1: int, k2: int| 0 <= k1 < k2 < zs.len() implies #[trigger] zs[k1]
                != #[trigger] zs[k2] by {
                assert(self.path_in(a, paths0[k1]) && self.path_in(a, paths0[k2]));
                assert(xs[k1] != xs[k2]);
                assert(self.walk(d0, paths0[k1]) == xs[k1]);
                assert(self.walk(d0, paths0[k2]) == xs[k2]);
            }
            assert forall|q: Seq<int>| self.path_in(a, q) implies #[trigger] covered(
                paths0,
                zs,
                self.walk(d1, q),
                q,
            ) by {
                assert(covered(paths0, xs, self.walk(d0, q), q));
                let k = choose|k: int|
                    0 <= k < xs.len() && #[trigger] xs[k] == self.walk(d0, q) && shortlex_le(
                        paths0[k],
                        q,
                    );
                assert(self.path_in(a, paths0[k]) && self.walk(d0, paths0[k]) == xs[k]);
                assert(self.walk(d0, paths0[k]) == self.walk(d0, q));
                assert(self.walk(d1, paths0[k]) == self.walk(d1, q));
                assert(zs[k] == self.walk(d1, q) && shortlex_le(paths0[k], q));
            }
            assert forall|k: int| 0 <= k < zs.len() implies self.path_in(a, #[trigger] paths0[k])
                && self.walk(d1, paths0[k]) == zs[k] by {}
        }
        self.lemma_listing_unique(a, d1, paths0, zs, paths1, ys);
        assert forall|k: int, j: int|
            0 <= k < xs.len() && self.has_index(j) && a.contains(j) implies paired(
            xs,
            ys,
            #[trigger] self.al(xs[k], j),
            self.al(ys[k], j),
        ) by {
            let p = paths0[k];
            assert(self.path_in(a, p) && self.walk(d0, p) == xs[k]);
            assert(self.walk(d1, p) == ys[k]);
            let q = p.push(j);
            self.lemma_path_in_push(a, p, j);
            self.lemma_walk_push(d0, p, j);
            self.lemma_walk_push(d1, p, j);
            assert(covered(paths0, xs, self.walk(d0, q), q));
            let m = choose|m: int|
                0 <= m < xs.len() && #[trigger] xs[m] == self.walk(d0, q) && shortlex_le(
                    paths0[m],
                    q,
                );
            assert(self.path_in(a, paths0[m]) && self.walk(d0, paths0[m]) == xs[m]);
            assert(self.walk(d0, paths0[m]) == self.walk(d0, q));
            assert(self.walk(d1, paths0[m]) == self.walk(d1, q));
            assert(zs[m] == ys[m]);
            assert(xs[m] == self.al(xs[k], j) && ys[m] == self.al(ys[k], j));
        }
    }

    /// What linking a list of pairs does, image by image.
    pub proof fn lemma_linked_all(self, i: int, xs: Seq<int>, ys: Seq<int>)
        requires
            self.shaped(),
            self.has_index(i),
            self.pairs_free(i, xs, ys),
        ensures
            self.linked_all(i, xs, ys).dimension == self.dimension,
            self.linked_all(i, xs, ys).deleted == self.deleted,
            self.linked_all(i, xs, ys).alpha.len() == self.alpha.len(),
            forall|x: int|
                self.has_dart(x) ==> (#[trigger] self.linked_all(i, xs, ys).alpha[x]).len()
                    == self.dimension + 1,
            forall|x: int, k: int|
                self.has_dart(x) && self.has_index(k) ==> #[trigger] self.linked_all(i, xs, ys).al(
                    x,
                    k,
                ) == (if k == i && listed(xs, x) {
                    ys[choose|m: int| 0 <= m < xs.len() && #[trigger] xs[m] == x]
                } else if k == i && listed(ys, x) {
                    xs[choose|m: int| 0 <= m < ys.len() && #[trigger] ys[m] == x]
                } else {
                    self.al(x, k)
                }),
        decreases xs.len(),
    {
        let g = self.linked_all(i, xs, ys);
        if xs.len() == 0 {
            assert forall|x: int| !listed(xs, x) && !listed(ys, x) by {}
            assert forall|x: int| self.has_dart(x) implies (#[trigger] g.alpha[x]).len()
                == self.dimension + 1 by {
                assert(self.alpha[x].len() == self.dimension + 1);
            }
        } else {
            let xs0 = xs.drop_last();
            let ys0 = ys.drop_last();
            let xl = xs.last();
            let yl = ys.last();
            let last = xs.len() - 1;
            assert(self.pairs_free(i, xs0, ys0)) by {
                assert forall|k: int| 0 <= k < xs0.len() implies self.live(#[trigger] xs0[k])
                    && self.is_free(xs0[k], i) by {
                    assert(self.live(xs[k]));
                }
                assert forall|k: int| 0 <= k < ys0.len() implies self.live(#[trigger] ys0[k])
                    && self.is_free(ys0[k], i) by {
                    assert(self.live(ys[k]));
                }
                assert forall|k1: int, k2: int| 0 <= k1 < k2 < xs0.len() implies #[trigger] xs0[k1]
                    != #[trigger] xs0[k2] by {
                    assert(xs[k1] != xs[k2]);
                }
                assert forall|k1: int, k2: int| 0 <= k1 < k2 < ys0.len() implies #[trigger] ys0[k1]
                    != #[trigger] ys0[k2] by {
                    assert(ys[k1] != ys[k2]);
                }
                assert forall|k1: int, k2: int|
                    0 <= k1 < xs0.len() && 0 <= k2 < ys0.len() implies #[trigger] xs0[k1]
                    != #[trigger] ys0[k2] by {
                    assert(xs[k1] != ys[k2]);
                }
            }
            self.lemma_linked_all(i, xs0, ys0);
            let g0 = self.linked_all(i, xs0, ys0);
            assert(self.live(xs[last]) && self.live(ys[last]));
            assert forall|x: int| self.has_dart(x) implies (#[trigger] g.alpha[x]).len()
                == self.dimension + 1 by {
                assert(g0.alpha[x].len() == self.dimension + 1);
            }
            assert forall|x: int, k: int| self.has_dart(x) && self.has_index(k) implies #[trigger] g.al(
                x,
                k,
            ) == (if k == i && listed(xs, x) {
                ys[choose|m: int| 0 <= m < xs.len() && #[trigger] xs[m] == x]
            } else if k == i && listed(ys, x) {
                xs[choose|m: int| 0 <= m < ys.len() && #[trigger] ys[m] == x]
            } else {
                self.al(x, k)
            }) by {
                assert(g0.alpha[x].len() == self.dimension + 1);
                assert(g0.alpha[xl].len() == self.dimension + 1);
                assert(g0.alpha[yl].len() == self.dimension + 1);
                assert(g.al(x, k) == (if k == i && x == yl {
                    xl
                } else if k == i && x == xl {
                    yl
                } else {
                    g0.al(x, k)
                }));
                // membership in the longer lists
                if listed(xs, x) {
                    let m = choose|m: int| 0 <= m < xs.len() && #[trigger] xs[m] == x;
                    if m < last {
                        assert(xs0[m] == x);
                        assert(xs[m] != xs[last]);
                        let m0 = choose|m0: int| 0 <= m0 < xs0.len() && #[trigger] xs0[m0] == x;
                        if m0 < m {
                            assert(xs[m0] != xs[m]);
                        }
                        if m < m0 {
                            assert(xs[m] != xs[m0]);
                        }
                    } else {
                        if listed(xs0, x) {
                            let m0 = choose|m0: int| 0 <= m0 < xs0.len() && #[trigger] xs0[m0] == x;
                            assert(xs[m0] != xs[last]);
                        }
                    }
                    assert(xs[m] != ys[last]);
                    if listed(ys, x) {
                        let m2 = choose|m2: int| 0 <= m2 < ys.len() && #[trigger] ys[m2] == x;
                        assert(xs[m] != ys[m2]);
                    }
                } else {
                    if listed(xs0, x) {
                        let m0 = choose|m0: int| 0 <= m0 < xs0.len() && #[trigger] xs0[m0] == x;
                        assert(xs[m0] == x);
                    }
                    assert(xs[last] != x);
                    if listed(ys, x) {
                        let m = choose|m: int| 0 <= m < ys.len() && #[trigger] ys[m] == x;
                        if m < last {
                            assert(ys0[m] == x);
                            assert(ys[m] != ys[last]);
                            let m0 = choose|m0: int| 0 <= m0 < ys0.len() && #[trigger] ys0[m0] == x;
                            if m0 < m {
                                assert(ys[m0] != ys[m]);
                            }
                            if m < m0 {
                                assert(ys[m] != ys[m0]);
                            }
                        } else {
                            if listed(ys0, x) {
                                let m0 = choose|m0: int|
                                    0 <= m0 < ys0.len() && #[trigger] ys0[m0] == x;
                                assert(ys[m0] != ys[last]);
                            }
                        }
                    } else {
                        if listed(ys0, x) {
                            let m0 = choose|m0: int| 0 <= m0 < ys0.len() && #[trigger] ys0[m0] == x;
                            assert(ys[m0] == x);
                        }
                        assert(ys[last] != x);
                    }
                }
            }
        }
    }
}

} // verus!

verus! {

/// In a list without repetition, the position of an entry is determined.
pub proof fn lemma_position(xs: Seq<int>, k: int)
    requires
        0 <= k < xs.len(),
        forall|k1: int, k2: int| 0 <= k1 < k2 < xs.len() ==> #[trigger] xs[k1] != #[trigger] xs[k2],
    ensures
        listed(xs, xs[k]),
        (choose|m: int| 0 <= m < xs.len() && #[trigger] xs[m] == xs[k]) == k,
{
    let m = choose|m: int| 0 <= m < xs.len() && #[trigger] xs[m] == xs[k];
    if m < k {
        assert(xs[m] != xs[k]);
    }
    if k < m {
        assert(xs[k] != xs[m]);
    }
}

impl GMapView {
    /// Linking closed pairs of free darts keeps a map valid.
    pub proof fn lemma_sewn_valid(self, i: int, xs: Seq<int>, ys: Seq<int>)
        requires
            self.valid(),
            self.has_index(i),
            self.pairs_free(i, xs, ys),
            self.pairs_closed(i, xs, ys),
        ensures
            self.linked_all(i, xs, ys).valid(),
    {
        let g = self.linked_all(i, xs, ys);
        self.lemma_linked_all(i, xs, ys);
        Alphas::lemma_apart(i);
        let a = Alphas::spec_apart(i);
        // the image under alpha_i of a dart outside the pairs is outside the pairs
        assert forall|x: int|
            self.has_dart(x) && !listed(xs, x) && !listed(ys, x) implies !listed(
            xs,
            #[trigger] self.al(x, i),
        ) && !listed(ys, self.al(x, i)) by {
            let e = self.al(x, i);
            assert(self.al(e, i) == x);
            if listed(xs, e) {
                let m = choose|m: int| 0 <= m < xs.len() && #[trigger] xs[m] == e;
                assert(self.is_free(xs[m], i));
            }
            if listed(ys, e) {
                let m = choose|m: int| 0 <= m < ys.len() && #[trigger] ys[m] == e;
                assert(self.is_free(ys[m], i));
            }
        }
        // the image under alpha_j of a dart outside the pairs is outside the pairs
        assert forall|x: int, j: int|
            self.has_dart(x) && self.has_index(j) && a.contains(j) && !listed(xs, x) && !listed(
                ys,
                x,
            ) implies !listed(xs, #[trigger] self.al(x, j)) && !listed(ys, self.al(x, j)) by {
            let e = self.al(x, j);
            assert(self.al(e, j) == x);
            if listed(xs, e) {
                let m = choose|m: int| 0 <= m < xs.len() && #[trigger] xs[m] == e;
                assert(paired(xs, ys, self.al(xs[m], j), self.al(ys[m], j)));
                let m2 = choose|m2: int|
                    0 <= m2 < xs.len() && 0 <= m2 < ys.len() && #[trigger] xs[m2] == self.al(
                        xs[m],
                        j,
                    ) && ys[m2] == self.al(ys[m], j);
                assert(xs[m2] == x);
            }
            if listed(ys, e) {
                let m = choose|m: int| 0 <= m < ys.len() && #[trigger] ys[m] == e;
                assert(paired(xs, ys, self.al(xs[m], j), self.al(ys[m], j)));
                let m2 = choose|m2: int|
                    0 <= m2 < xs.len() && 0 <= m2 < ys.len() && #[trigger] xs[m2] == self.al(
                        xs[m],
                        j,
                    ) && ys[m2] == self.al(ys[m], j);
                assert(ys[m2] == x);
            }
        }
        assert(g.shaped()) by {
            assert forall|x: int, k: int| g.has_dart(x) && g.has_index(k) implies g.has_dart(
                #[trigger] g.al(x, k),
            ) by {
                assert(self.has_dart(self.al(x, k)));
                if k == i && listed(xs, x) {
                    let m = choose|m: int| 0 <= m < xs.len() && #[trigger] xs[m] == x;
                    assert(self.live(ys[m]));
                } else if k == i && listed(ys, x) {
                    let m = choose|m: int| 0 <= m < ys.len() && #[trigger] ys[m] == x;
                    assert(self.live(xs[m]));
                }
            }
        }
        assert(g.involutive()) by {
            assert forall|x: int, k: int| g.has_dart(x) && g.has_index(k) implies g.al(
                #[trigger] g.al(x, k),
                k,
            ) == x by {
                assert(self.has_dart(self.al(x, k)));
                assert(self.al(self.al(x, k), k) == x);
                if k == i && listed(xs, x) {
                    let m = choose|m: int| 0 <= m < xs.len() && #[trigger] xs[m] == x;
                    assert(self.live(ys[m]));
                    lemma_position(ys, m);
                    if listed(xs, ys[m]) {
                        let m2 = choose|m2: int| 0 <= m2 < xs.len() && #[trigger] xs[m2] == ys[m];
                        assert(xs[m2] != ys[m]);
                    }
                } else if k == i && listed(ys, x) {
                    let m = choose|m: int| 0 <= m < ys.len() && #[trigger] ys[m] == x;
                    assert(self.live(xs[m]));
                    lemma_position(xs, m);
                }
            }
        }
        assert(g.entombed()) by {
            assert forall|x: int, k: int| g.has_dart(x) && g.has_index(k) implies g.deleted[#[trigger] g.al(
                x,
                k,
            )] == g.deleted[x] by {
                assert(self.has_dart(self.al(x, k)));
                assert(self.deleted[self.al(x, k)] == self.deleted[x]);
                if k == i && listed(xs, x) {
                    let m = choose|m: int| 0 <= m < xs.len() && #[trigger] xs[m] == x;
                    assert(self.live(ys[m]) && self.live(xs[m]));
                } else if k == i && listed(ys, x) {
                    let m = choose|m: int| 0 <= m < ys.len() && #[trigger] ys[m] == x;
                    assert(self.live(xs[m]) && self.live(ys[m]));
                }
            }
        }
        assert forall|x: int, b: int, c: int|
            #![trigger g.al(g.al(x, b), c)]
            #![trigger g.al(g.al(x, c), b)]
            g.has_dart(x) && 0 <= b && b + 2 <= c <= g.dimension implies g.al(g.al(x, b), c)
            == g.al(g.al(x, c), b) by {
            assert(self.has_dart(self.al(x, b)));
            assert(self.has_dart(self.al(x, c)));
            assert(self.al(self.al(x, b), c) == self.al(self.al(x, c), b));
            if b == i || c == i {
                let j = if b == i {
                    c
                } else {
                    b
                };
                assert(a.contains(j));
                assert(g.al(x, j) == self.al(x, j));
                if listed(xs, x) {
                    let k = choose|k: int| 0 <= k < xs.len() && #[trigger] xs[k] == x;
                    assert(self.live(ys[k]));
                    assert(paired(xs, ys, self.al(xs[k], j), self.al(ys[k], j)));
                    let m = choose|m: int|
                        0 <= m < xs.len() && 0 <= m < ys.len() && #[trigger] xs[m] == self.al(
                            xs[k],
                            j,
                        ) && ys[m] == self.al(ys[k], j);
                    lemma_position(xs, m);
                    assert(g.al(x, i) == ys[k]);
                    assert(g.al(ys[k], j) == self.al(ys[k], j));
                    assert(g.al(xs[m], i) == ys[m]);
                } else if listed(ys, x) {
                    let k = choose|k: int| 0 <= k < ys.len() && #[trigger] ys[k] == x;
                    assert(self.live(xs[k]));
                    assert(paired(xs, ys, self.al(xs[k], j), self.al(ys[k], j)));
                    let m = choose|m: int|
                        0 <= m < xs.len() && 0 <= m < ys.len() && #[trigger] xs[m] == self.al(
                            xs[k],
                            j,
                        ) && ys[m] == self.al(ys[k], j);
                    lemma_position(ys, m);
                    assert(xs[m] != ys[m]);
                    if listed(xs, ys[m]) {
                        let m2 = choose|m2: int| 0 <= m2 < xs.len() && #[trigger] xs[m2] == ys[m];
                        assert(xs[m2] != ys[m]);
                    }
                    assert(g.al(x, i) == xs[k]);
                    assert(g.al(xs[k], j) == self.al(xs[k], j));
                    assert(g.al(ys[m], i) == xs[m]);
                } else {
                    assert(!listed(xs, self.al(x, i)) && !listed(ys, self.al(x, i)));
                    assert(!listed(xs, self.al(x, j)) && !listed(ys, self.al(x, j)));
                    assert(g.al(x, i) == self.al(x, i));
                    assert(g.al(self.al(x, j), i) == self.al(self.al(x, j), i));
                    assert(g.al(self.al(x, i), j) == self.al(self.al(x, i), j));
                }
            } else {
                assert(g.al(x, b) == self.al(x, b));
                assert(g.al(x, c) == self.al(x, c));
            }
        }
    }
}

} // verus!

verus! {

/// The first darts of a list of pairs, as integers.
pub open spec fn pair_firsts(s: Seq<(Dart, Dart)>) -> Seq<int> {
    Seq::new(s.len(), |k: int| s[k].0@)
}

/// The second darts of a list of pairs, as integers.
pub open spec fn pair_seconds(s: Seq<(Dart, Dart)>) -> Seq<int> {
    Seq::new(s.len(), |k: int| s[k].1@)
}

/// `pos[x]` is the position of dart `x` in `darts`, and `n` or more when `x`
/// is not listed.
spec fn positions_of(pos: Seq<usize>, darts: Seq<int>, n: int) -> bool {
    &&& pos.len() == n
    &&& forall|x: int|
        0 <= x < n ==> ((#[trigger] pos[x] < darts.len() ==> darts[pos[x] as int] == x) && (listed(
            darts,
            x,
        ) ==> pos[x] < darts.len()))
}

impl GMapView {
    /// Pair `k` can be linked: both darts are `i`-free, the first dart is no
    /// second dart, and the images of the pair are pairs.
    pub open spec fn pair_fits(self, i: int, xs: Seq<int>, ys: Seq<int>, k: int) -> bool {
        &&& self.is_free(xs[k], i)
        &&& self.is_free(ys[k], i)
        &&& !listed(ys, xs[k])
        &&& forall|j: int|
            self.has_index(j) && Alphas::spec_apart(i).contains(j) ==> paired(
                xs,
                ys,
                #[trigger] self.al(xs[k], j),
                self.al(ys[k], j),
            )
    }
}

impl GMap {
    /// The position of every dart in a listing.
    fn positions(&self, l: &Vec<(Vec<usize>, Dart)>) -> (pos: Vec<usize>)
        requires
            self.rep_ok(),
            l@.len() <= self@.ndarts(),
            forall|k: int| 0 <= k < l@.len() ==> self@.has_dart(#[trigger] l@[k].1@),
            forall|k1: int, k2: int|
                0 <= k1 < k2 < l@.len() ==> #[trigger] listing_darts(l@)[k1]
                    != #[trigger] listing_darts(l@)[k2],
        ensures
            positions_of(pos@, listing_darts(l@), self@.ndarts()),
    {
        let n: usize = self.ndarts();
        let ghost darts = listing_darts(l@);
        let mut pos: Vec<usize> = Vec::new();
        let mut x: usize = 0;
        while x < n
            invariant
                x <= n,
                pos@.len() == x,
                forall|y: int| 0 <= y < x ==> pos@[y] == n,
            decreases n - x,
        {
            pos.push(n);
            x += 1;
        }
        let mut k: usize = 0;
        while k < l.len()
            invariant
                k <= l@.len(),
                l@.len() <= n,
                n == self@.ndarts(),
                darts == listing_darts(l@),
                pos@.len() == n,
                forall|m: int| 0 <= m < l@.len() ==> self@.has_dart(#[trigger] l@[m].1@),
                forall|k1: int, k2: int|
                    0 <= k1 < k2 < l@.len() ==> #[trigger] darts[k1] != #[trigger] darts[k2],
                forall|y: int|
                    0 <= y < n ==> (#[trigger] pos@[y] < l@.len() ==> pos@[y] < k
                        && darts[pos@[y] as int] == y),
                forall|y: int| 0 <= y < n ==> #[trigger] pos@[y] <= n,
                forall|m: int| 0 <= m < k ==> pos@[#[trigger] darts[m]] == m,
            decreases l@.len() - k,
        {
            let d: Dart = l[k].1;
            proof {
                assert(self@.has_dart(l@[k as int].1@));
                assert(darts[k as int] == d@);
            }
            let ghost prev = pos@;
            pos.set(d.0, k);
            proof {
                assert forall|m: int| 0 <= m < k + 1 implies pos@[#[trigger] darts[m]] == m by {
                    if m < k {
                        assert(darts[m] != darts[k as int]);
                        assert(prev[darts[m]] == m);
                    }
                }
            }
            k += 1;
        }
        proof {
            assert forall|y: int| 0 <= y < n implies ((#[trigger] pos@[y] < darts.len()
                ==> darts[pos@[y] as int] == y) && (listed(darts, y) ==> pos@[y] < darts.len())) by {
                if listed(darts, y) {
                    let m = choose|m: int| 0 <= m < darts.len() && #[trigger] darts[m] == y;
                    assert(pos@[darts[m]] == m);
                }
            }
        }
        pos
    }

    /// Whether every pair of two listings of one length can be linked.
    fn pairs_fit(
        &self,
        i: usize,
        l0: &Vec<(Vec<usize>, Dart)>,
        l1: &Vec<(Vec<usize>, Dart)>,
        pos0: &Vec<usize>,
        pos1: &Vec<usize>,
    ) -> (ok: bool)
        requires
            self.wf(),
            self@.has_index(i as int),
            l0@.len() == l1@.len(),
            l0@.len() <= self@.ndarts(),
            forall|k: int| 0 <= k < l0@.len() ==> self@.has_dart(#[trigger] l0@[k].1@),
            forall|k: int| 0 <= k < l1@.len() ==> self@.has_dart(#[trigger] l1@[k].1@),
            positions_of(pos0@, listing_darts(l0@), self@.ndarts()),
            positions_of(pos1@, listing_darts(l1@), self@.ndarts()),
            forall|k1: int, k2: int|
                0 <= k1 < k2 < l0@.len() ==> #[trigger] listing_darts(l0@)[k1]
                    != #[trigger] listing_darts(l0@)[k2],
            forall|k1: int, k2: int|
                0 <= k1 < k2 < l1@.len() ==> #[trigger] listing_darts(l1@)[k1]
                    != #[trigger] listing_darts(l1@)[k2],
            forall|k: int, j: int|
                0 <= k < l0@.len() && self@.has_index(j) && Alphas::spec_apart(i as int).contains(j)
                    ==> listed(listing_darts(l0@), #[trigger] self@.al(listing_darts(l0@)[k], j)),
        ensures
            ok <==> forall|k: int|
                0 <= k < l0@.len() ==> #[trigger] self@.pair_fits(
                    i as int,
                    listing_darts(l0@),
                    listing_darts(l1@),
                    k,
                ),
    {
        let ghost xs = listing_darts(l0@);
        let ghost ys = listing_darts(l1@);
        let ghost g = self@;
        let len: usize = l0.len();
        let dim: usize = self.dimension();
        let mask = Alphas::apart(i);
        let mut k: usize = 0;
        while k < len
            invariant
                self.wf(),
                g == self@,
                g.has_index(i as int),
                dim == g.dimension,
                mask == Alphas::spec_apart(i as int),
                len == l0@.len(),
                l0@.len() == l1@.len(),
                len <= g.ndarts(),
                k <= len,
                xs == listing_darts(l0@),
                ys == listing_darts(l1@),
                forall|m: int| 0 <= m < l0@.len() ==> g.has_dart(#[trigger] l0@[m].1@),
                forall|m: int| 0 <= m < l1@.len() ==> g.has_dart(#[trigger] l1@[m].1@),
                positions_of(pos0@, xs, g.ndarts()),
                positions_of(pos1@, ys, g.ndarts()),
                forall|k1: int, k2: int|
                    0 <= k1 < k2 < xs.len() ==> #[trigger] xs[k1] != #[trigger] xs[k2],
                forall|k1: int, k2: int|
                    0 <= k1 < k2 < ys.len() ==> #[trigger] ys[k1] != #[trigger] ys[k2],
                forall|m: int, j: int|
                    0 <= m < xs.len() && g.has_index(j) && mask.contains(j) ==> listed(
                        xs,
                        #[trigger] g.al(xs[m], j),
                    ),
                forall|m: int| 0 <= m < k ==> #[trigger] g.pair_fits(i as int, xs, ys, m),
            decreases len - k,
        {
            let x: Dart = l0[k].1;
            let y: Dart = l1[k].1;
            proof {
                assert(g.has_dart(l0@[k as int].1@));
                assert(g.has_dart(l1@[k as int].1@));
                assert(xs[k as int] == x@ && ys[k as int] == y@);
            }
            if !self.is_free(x, i) || !self.is_free(y, i) {
                proof {
                    assert(!g.pair_fits(i as int, xs, ys, k as int));
                }
                return false;
            }
            if pos1[x.0] < len {
                proof {
                    assert(ys[pos1@[x@] as int] == x@);
                    assert(listed(ys, x@));
                    assert(!g.pair_fits(i as int, xs, ys, k as int));
                }
                return false;
            }
            proof {
                assert(!listed(ys, x@));
            }
            let mut j: usize = 0;
            while j <= dim
                invariant
                    self.wf(),
                    g == self@,
                    dim == g.dimension,
                    mask == Alphas::spec_apart(i as int),
                    j <= dim + 1,
                    k < len,
                    xs == listing_darts(l0@),
                    ys == listing_darts(l1@),
                    len == xs.len(),
                    xs.len() == ys.len(),
                    len <= g.ndarts(),
                    g.has_dart(x@),
                    g.has_dart(y@),
                    xs[k as int] == x@,
                    ys[k as int] == y@,
                    positions_of(pos0@, xs, g.ndarts()),
                    positions_of(pos1@, ys, g.ndarts()),
                    forall|k1: int, k2: int|
                        0 <= k1 < k2 < xs.len() ==> #[trigger] xs[k1] != #[trigger] xs[k2],
                    forall|k1: int, k2: int|
                        0 <= k1 < k2 < ys.len() ==> #[trigger] ys[k1] != #[trigger] ys[k2],
                    forall|m: int, t: int|
                        0 <= m < xs.len() && g.has_index(t) && mask.contains(t) ==> listed(
                            xs,
                            #[trigger] g.al(xs[m], t),
                        ),
                    forall|t: int|
                        0 <= t < j && mask.contains(t) ==> paired(
                            xs,
                            ys,
                            #[trigger] g.al(x@, t),
                            g.al(y@, t),
                        ),
                decreases dim + 1 - j,
            {
                if mask.has(j) {
                    let xj: Dart = self.al1(x, j);
                    let yj: Dart = self.al1(y, j);
                    proof {
                        assert(g.has_dart(g.al(x@, j as int)));
                        assert(g.has_dart(g.al(y@, j as int)));
                        assert(listed(xs, g.al(xs[k as int], j as int)));
                    }
                    let m: usize = pos0[xj.0];
                    if pos1[yj.0] != m {
                        proof {
                            assert(xs[m as int] == xj@);
                            if paired(xs, ys, xj@, yj@) {
                                let m2 = choose|m2: int|
                                    0 <= m2 < xs.len() && 0 <= m2 < ys.len() && #[trigger] xs[m2]
                                        == xj@ && ys[m2] == yj@;
                                if m2 < m {
                                    assert(xs[m2] != xs[m as int]);
                                }
                                if m < m2 {
                                    assert(xs[m as int] != xs[m2]);
                                }
                                assert(listed(ys, yj@));
                                let m3 = pos1@[yj@] as int;
                                assert(ys[m3] == yj@);
                                if m3 < m2 {
                                    assert(ys[m3] != ys[m2]);
                                }
                                if m2 < m3 {
                                    assert(ys[m2] != ys[m3]);
                                }
                            }
                            assert(!paired(xs, ys, g.al(xs[k as int], j as int), g.al(ys[k as int], j as int)));
                            assert(!g.pair_fits(i as int, xs, ys, k as int));
                        }
                        return false;
                    }
                    proof {
                        assert(xs[m as int] == xj@ && ys[m as int] == yj@);
                    }
                }
                j += 1;
            }
            proof {
                assert(g.pair_fits(i as int, xs, ys, k as int));
            }
            k += 1;
        }
        true
    }
}

} // verus!

verus! {

impl GMapView {
    /// What unlinking a list of darts does, image by image. No dart of the
    /// list may be the image under `alpha_i` of a dart of the list.
    pub proof fn lemma_unlinked_all(self, i: int, xs: Seq<int>)
        requires
            self.sound(),
            self.has_index(i),
            forall|k: int| 0 <= k < xs.len() ==> self.has_dart(#[trigger] xs[k]),
            forall|k: int| 0 <= k < xs.len() ==> !listed(xs, self.al(#[trigger] xs[k], i)),
        ensures
            self.unlinked_all(i, xs).dimension == self.dimension,
            self.unlinked_all(i, xs).deleted == self.deleted,
            self.unlinked_all(i, xs).alpha.len() == self.alpha.len(),
            forall|x: int|
                self.has_dart(x) ==> (#[trigger] self.unlinked_all(i, xs).alpha[x]).len()
                    == self.dimension + 1,
            forall|x: int, k: int|
                self.has_dart(x) && self.has_index(k) ==> #[trigger] self.unlinked_all(i, xs).al(
                    x,
                    k,
                ) == (if k == i && (listed(xs, x) || listed(xs, self.al(x, i))) {
                    x
                } else {
                    self.al(x, k)
                }),
        decreases xs.len(),
    {
        let g = self.unlinked_all(i, xs);
        if xs.len() == 0 {
            assert forall|x: int| !listed(xs, x) by {}
            assert forall|x: int| self.has_dart(x) implies (#[trigger] g.alpha[x]).len()
                == self.dimension + 1 by {
                assert(self.alpha[x].len() == self.dimension + 1);
            }
        } else {
            let xs0 = xs.drop_last();
            let xl = xs.last();
            let last = xs.len() - 1;
            assert forall|k: int| 0 <= k < xs0.len() implies self.has_dart(#[trigger] xs0[k])
                && !listed(xs0, self.al(xs0[k], i)) by {
                assert(self.has_dart(xs[k]));
                assert(!listed(xs, self.al(xs[k], i)));
                if listed(xs0, self.al(xs0[k], i)) {
                    let m = choose|m: int|
                        0 <= m < xs0.len() && #[trigger] xs0[m] == self.al(xs0[k], i);
                    assert(xs[m] == self.al(xs[k], i));
                }
            }
            self.lemma_unlinked_all(i, xs0);
            let g0 = self.unlinked_all(i, xs0);
            assert(self.has_dart(xs[last]));
            let e = self.al(xl, i);
            assert(self.has_dart(e));
            assert(self.al(e, i) == xl);
            assert(!listed(xs, self.al(xs[last], i)));
            assert(!listed(xs0, e)) by {
                if listed(xs0, e) {
                    let m = choose|m: int| 0 <= m < xs0.len() && #[trigger] xs0[m] == e;
                    assert(xs[m] == e);
                }
            }
            // the image of the last dart has not been touched yet, unless the
            // last dart stands earlier in the list too
            assert(g0.al(xl, i) == (if listed(xs0, xl) {
                xl
            } else {
                e
            }));
            let e0 = g0.al(xl, i);
            assert forall|x: int| self.has_dart(x) implies (#[trigger] g.alpha[x]).len()
                == self.dimension + 1 by {
                assert(g0.alpha[x].len() == self.dimension + 1);
            }
            assert forall|x: int, k: int| self.has_dart(x) && self.has_index(k) implies #[trigger] g.al(
                x,
                k,
            ) == (if k == i && (listed(xs, x) || listed(xs, self.al(x, i))) {
                x
            } else {
                self.al(x, k)
            }) by {
                assert(g0.alpha[x].len() == self.dimension + 1);
                assert(g0.alpha[xl].len() == self.dimension + 1);
                assert(g0.alpha[e0].len() == self.dimension + 1);
                assert(g.al(x, k) == (if k == i && (x == xl || x == e0) {
                    x
                } else {
                    g0.al(x, k)
                }));
                let y = self.al(x, i);
                assert(self.has_dart(y));
                assert(self.al(y, i) == x);
                assert(listed(xs, x) <==> (listed(xs0, x) || x == xl)) by {
                    if listed(xs, x) {
                        let m = choose|m: int| 0 <= m < xs.len() && #[trigger] xs[m] == x;
                        if m < last {
                            assert(xs0[m] == x);
                        }
                    }
                    if listed(xs0, x) {
                        let m = choose|m: int| 0 <= m < xs0.len() && #[trigger] xs0[m] == x;
                        assert(xs[m] == x);
                    }
                    if x == xl {
                        assert(xs[last] == x);
                    }
                }
                assert(listed(xs, y) <==> (listed(xs0, y) || y == xl)) by {
                    if listed(xs, y) {
                        let m = choose|m: int| 0 <= m < xs.len() && #[trigger] xs[m] == y;
                        if m < last {
                            assert(xs0[m] == y);
                        }
                    }
                    if listed(xs0, y) {
                        let m = choose|m: int| 0 <= m < xs0.len() && #[trigger] xs0[m] == y;
                        assert(xs[m] == y);
                    }
                    if y == xl {
                        assert(xs[last] == y);
                    }
                }
            }
        }
    }

    /// Unsewing a cell keeps a map valid.
    pub proof fn lemma_unsewn_valid(self, i: int, xs: Seq<int>)
        requires
            self.valid(),
            self.has_index(i),
            forall|k: int| 0 <= k < xs.len() ==> self.has_dart(#[trigger] xs[k]),
            forall|k: int| 0 <= k < xs.len() ==> !listed(xs, self.al(#[trigger] xs[k], i)),
            forall|k: int, j: int|
                0 <= k < xs.len() && self.has_index(j) && Alphas::spec_apart(i).contains(j)
                    ==> listed(xs, #[trigger] self.al(xs[k], j)),
        ensures
            self.unlinked_all(i, xs).valid(),
    {
        let g = self.unlinked_all(i, xs);
        self.lemma_unlinked_all(i, xs);
        Alphas::lemma_apart(i);
        let a = Alphas::spec_apart(i);
        assert(g.shaped()) by {
            assert forall|x: int, k: int| g.has_dart(x) && g.has_index(k) implies g.has_dart(
                #[trigger] g.al(x, k),
            ) by {
                assert(self.has_dart(self.al(x, k)));
            }
        }
        assert(g.involutive()) by {
            assert forall|x: int, k: int| g.has_dart(x) && g.has_index(k) implies g.al(
                #[trigger] g.al(x, k),
                k,
            ) == x by {
                let y = self.al(x, k);
                assert(self.has_dart(y));
                assert(self.al(y, k) == x);
            }
        }
        assert(g.entombed()) by {
            assert forall|x: int, k: int| g.has_dart(x) && g.has_index(k) implies g.deleted[#[trigger] g.al(
                x,
                k,
            )] == g.deleted[x] by {
                assert(self.has_dart(self.al(x, k)));
                assert(self.deleted[self.al(x, k)] == self.deleted[x]);
            }
        }
        // the list is closed under the involutions of the mask, and so is
        // what lies outside it
        assert forall|x: int, j: int|
            self.has_dart(x) && self.has_index(j) && a.contains(j) implies (listed(xs, x)
            <==> listed(xs, #[trigger] self.al(x, j))) by {
            let y = self.al(x, j);
            assert(self.has_dart(y));
            assert(self.al(y, j) == x);
            if listed(xs, x) {
                let m = choose|m: int| 0 <= m < xs.len() && #[trigger] xs[m] == x;
                assert(listed(xs, self.al(xs[m], j)));
            }
            if listed(xs, y) {
                let m = choose|m: int| 0 <= m < xs.len() && #[trigger] xs[m] == y;
                assert(listed(xs, self.al(xs[m], j)));
            }
        }
        assert forall|x: int, b: int, c: int|
            #![trigger g.al(g.al(x, b), c)]
            #![trigger g.al(g.al(x, c), b)]
            g.has_dart(x) && 0 <= b && b + 2 <= c <= g.dimension implies g.al(g.al(x, b), c)
            == g.al(g.al(x, c), b) by {
            assert(self.has_dart(self.al(x, b)));
            assert(self.has_dart(self.al(x, c)));
            assert(self.al(self.al(x, b), c) == self.al(self.al(x, c), b));
            if b == i || c == i {
                let j = if b == i {
                    c
                } else {
                    b
                };
                assert(a.contains(j));
                let xi = self.al(x, i);
                let xj = self.al(x, j);
                assert(self.has_dart(xi));
                assert(self.has_dart(xj));
                assert(self.al(xj, i) == self.al(xi, j));
                assert(listed(xs, x) <==> listed(xs, xj));
                assert(listed(xs, xi) <==> listed(xs, self.al(xi, j)));
            }
        }
    }

    /// Sewing and then unsewing gives the map back: after a sewing along
    /// `alpha_i` of the cells at `d0` and `d1`, the cell at `d0` can be
    /// unsewn, its enumeration is what it was, and unlinking it restores
    /// every image.
    pub proof fn lemma_sew_then_unsew(self, i: int, d0: int, d1: int, xs: Seq<int>, ys: Seq<int>)
        requires
            self.valid(),
            self.has_index(i),
            self.live(d0),
            self.live(d1),
            self.sewable(i, d0, d1),
            self.orbit_is(Alphas::spec_apart(i), d0, xs),
            self.orbit_is(Alphas::spec_apart(i), d1, ys),
        ensures
            self.linked_all(i, xs, ys).valid(),
            self.linked_all(i, xs, ys).live(d0),
            !self.linked_all(i, xs, ys).is_free(d0, i),
            self.linked_all(i, xs, ys).unsewable(i, d0),
            self.linked_all(i, xs, ys).orbit_is(Alphas::spec_apart(i), d0, xs),
            self.linked_all(i, xs, ys).unlinked_all(i, xs) == self,
    {
        let a = Alphas::spec_apart(i);
        let g1 = self.linked_all(i, xs, ys);
        let paths0 = choose|paths: Seq<Seq<int>>| #[trigger] self.lists_orbit(a, d0, paths, xs);
        let paths1 = choose|paths: Seq<Seq<int>>| #[trigger] self.lists_orbit(a, d1, paths, ys);
        self.lemma_sewable_pairs(i, d0, d1, paths0, xs, paths1, ys);
        self.lemma_linked_all(i, xs, ys);
        self.lemma_sewn_valid(i, xs, ys);
        Alphas::lemma_apart(i);
        self.lemma_listing_first(a, d0, paths0, xs);
        self.lemma_listing_first(a, d1, paths1, ys);
        assert(g1.lists_orbit(a, d0, paths0, xs)) by {
            self.lemma_listing_agree(g1, a, d0, paths0, xs);
        }
        lemma_position(xs, 0);
        assert(listed(xs, d0));
        assert(g1.al(d0, i) == ys[0]);
        assert(xs[0] != ys[0]);
        assert forall|e: int| #[trigger] g1.reaches(a, d0, e) implies !g1.reaches(
            a,
            d0,
            g1.al(e, i),
        ) by {
            g1.lemma_listing_darts(a, d0, paths0, xs, e);
            g1.lemma_listing_darts(a, d0, paths0, xs, g1.al(e, i));
            let m = choose|m: int| 0 <= m < xs.len() && #[trigger] xs[m] == e;
            lemma_position(xs, m);
            self.lemma_listing_has_dart(a, d0, paths0, xs, m);
            assert(g1.al(e, i) == ys[m]);
            if listed(xs, ys[m]) {
                let m2 = choose|m2: int| 0 <= m2 < xs.len() && #[trigger] xs[m2] == ys[m];
                assert(xs[m2] != ys[m]);
            }
        }
        // unlinking restores every image
        assert forall|k: int| 0 <= k < xs.len() implies g1.has_dart(#[trigger] xs[k]) && !listed(
            xs,
            g1.al(xs[k], i),
        ) by {
            lemma_position(xs, k);
            assert(self.live(xs[k]));
            assert(g1.al(xs[k], i) == ys[k]);
            if listed(xs, ys[k]) {
                let m2 = choose|m2: int| 0 <= m2 < xs.len() && #[trigger] xs[m2] == ys[k];
                assert(xs[m2] != ys[k]);
            }
        }
        g1.lemma_unlinked_all(i, xs);
        let g2 = g1.unlinked_all(i, xs);
        assert(g2.alpha.len() == self.alpha.len());
        assert forall|x: int| 0 <= x < self.alpha.len() implies #[trigger] g2.alpha[x]
            =~= self.alpha[x] by {
            assert(self.alpha[x].len() == self.dimension + 1);
            assert(g2.alpha[x].len() == self.dimension + 1);
            assert forall|k: int| 0 <= k < self.dimension + 1 implies g2.alpha[x][k]
                == self.alpha[x][k] by {
                assert(g2.al(x, k) == g2.alpha[x][k]);
                assert(g1.al(x, k) == g1.alpha[x][k]);
                if k == i {
                    if listed(xs, x) {
                        let m = choose|m: int| 0 <= m < xs.len() && #[trigger] xs[m] == x;
                        assert(self.is_free(xs[m], i));
                    } else if listed(ys, x) {
                        let m = choose|m: int| 0 <= m < ys.len() && #[trigger] ys[m] == x;
                        assert(self.is_free(ys[m], i));
                        assert(self.live(xs[m]));
                        lemma_position(xs, m);
                    } else {
                        let e = self.al(x, i);
                        assert(self.al(e, i) == x);
                        if listed(xs, e) {
                            let m = choose|m: int| 0 <= m < xs.len() && #[trigger] xs[m] == e;
                            assert(self.is_free(xs[m], i));
                        }
                    }
                }
            }
        }
        assert(g2.alpha =~= self.alpha);
        assert(g2 =~= self);
    }

    /// The enumerations of two cells that can be sewn pair up into free,
    /// closed pairs.
    pub proof fn lemma_sewable_pairs(
        self,
        i: int,
        d0: int,
        d1: int,
        paths0: Seq<Seq<int>>,
        xs: Seq<int>,
        paths1: Seq<Seq<int>>,
        ys: Seq<int>,
    )
        requires
            self.sound(),
            self.has_index(i),
            self.live(d0),
            self.live(d1),
            self.sewable(i, d0, d1),
            self.lists_orbit(Alphas::spec_apart(i), d0, paths0, xs),
            self.lists_orbit(Alphas::spec_apart(i), d1, paths1, ys),
        ensures
            self.pairs_free(i, xs, ys),
            self.pairs_closed(i, xs, ys),
    {
        let a = Alphas::spec_apart(i);
        self.lemma_matched_listing(i, d0, d1, paths0, xs, paths1, ys);
        assert forall|k: int| 0 <= k < xs.len() implies self.live(#[trigger] xs[k]) && self.is_free(
            xs[k],
            i,
        ) by {
            self.lemma_listing_has_dart(a, d0, paths0, xs, k);
            self.lemma_deleted_closure(a, d0, xs[k]);
        }
        assert forall|k: int| 0 <= k < ys.len() implies self.live(#[trigger] ys[k]) && self.is_free(
            ys[k],
            i,
        ) by {
            self.lemma_listing_has_dart(a, d1, paths1, ys, k);
            self.lemma_deleted_closure(a, d1, ys[k]);
        }
        assert forall|k1: int, k2: int| 0 <= k1 < xs.len() && 0 <= k2 < ys.len() implies #[trigger] xs[k1]
            != #[trigger] ys[k2] by {
            self.lemma_listing_has_dart(a, d0, paths0, xs, k1);
            self.lemma_listing_has_dart(a, d1, paths1, ys, k2);
        }
    }
}

impl GMapView {
    /// The enumeration of the orbit of `d`.
    pub open spec fn orbit_list(self, a: Alphas, d: int) -> Seq<int> {
        choose|xs: Seq<int>| self.orbit_is(a, d, xs)
    }

    /// The cells at `d0` and `d1` are live and can be sewn along `alpha_i`.
    pub open spec fn can_sew(self, i: int, d0: int, d1: int) -> bool {
        self.live(d0) && self.live(d1) && self.sewable(i, d0, d1)
    }

    /// The map with the cell at `d0` sewn to the cell at `d1` along
    /// `alpha_i`: every dart of the first linked to the dart of the second
    /// that the same path reaches.
    pub open spec fn sewn(self, i: int, d0: int, d1: int) -> GMapView {
        self.linked_all(
            i,
            self.orbit_list(Alphas::spec_apart(i), d0),
            self.orbit_list(Alphas::spec_apart(i), d1),
        )
    }
}

impl GMap {
    /// Sews the cell at `d0` to the cell at `d1` along `alpha_i`: walks both
    /// cells in step along the involutions two or more apart from `i`, and
    /// links each dart of the first to the dart of the second that the same
    /// path reaches. Returns the pairs that were linked, in the order of the
    /// walk. Nothing changes when the cells cannot be sewn.
    pub fn sew(&mut self, i: usize, d0: Dart, d1: Dart) -> (r: Result<Vec<(Dart, Dart)>, GMapError>)
        requires
            old(self).wf(),
            old(self)@.has_index(i as int),
            old(self)@.has_dart(d0@),
            old(self)@.has_dart(d1@),
        ensures
            final(self).wf(),
            final(self)@.ndarts() == old(self)@.ndarts(),
            final(self)@.dimension == old(self)@.dimension,
            r is Ok <==> old(self)@.can_sew(i as int, d0@, d1@),
            r is Ok ==> final(self)@ == old(self)@.sewn(i as int, d0@, d1@),
            match r {
                Ok(pairs) => {
                    &&& old(self)@.live(d0@) && old(self)@.live(d1@)
                    &&& old(self)@.sewable(i as int, d0@, d1@)
                    &&& old(self)@.orbit_is(Alphas::spec_apart(i as int), d0@, pair_firsts(pairs@))
                    &&& old(self)@.orbit_is(Alphas::spec_apart(i as int), d1@, pair_seconds(pairs@))
                    &&& final(self)@ == old(self)@.linked_all(
                        i as int,
                        pair_firsts(pairs@),
                        pair_seconds(pairs@),
                    )
                },
                Err(GMapError::Deleted) => !(old(self)@.live(d0@) && old(self)@.live(d1@))
                    && final(self)@ == old(self)@,
                Err(GMapError::Unsewable) => old(self)@.live(d0@) && old(self)@.live(d1@) && !old(
                    self,
                )@.sewable(i as int, d0@, d1@) && final(self)@ == old(self)@,
                Err(_) => false,
            },
    {
        if self.is_deleted(d0) || self.is_deleted(d1) {
            return Err(GMapError::Deleted);
        }
        let ghost g = self@;
        let ghost a = Alphas::spec_apart(i as int);
        let mask = Alphas::apart(i);
        let l0 = self.orbit_paths(d0, mask);
        let l1 = self.orbit_paths(d1, mask);
        let ghost paths0 = listing_paths(l0@);
        let ghost xs = listing_darts(l0@);
        let ghost paths1 = listing_paths(l1@);
        let ghost ys = listing_darts(l1@);
        if l0.len() != l1.len() {
            proof {
                if g.sew_matched(i as int, d0@, d1@) {
                    g.lemma_matched_listing(i as int, d0@, d1@, paths0, xs, paths1, ys);
                }
            }
            return Err(GMapError::Unsewable);
        }
        proof {
            assert forall|k: int, j: int|
                0 <= k < l0@.len() && g.has_index(j) && a.contains(j) implies listed(
                xs,
                #[trigger] g.al(xs[k], j),
            ) by {
                g.lemma_listing_has_dart(a, d0@, paths0, xs, k);
                g.lemma_reaches_step(a, d0@, xs[k], j);
                g.lemma_listing_darts(a, d0@, paths0, xs, g.al(xs[k], j));
            }
        }
        let pos0 = self.positions(&l0);
        let pos1 = self.positions(&l1);
        let ok = self.pairs_fit(i, &l0, &l1, &pos0, &pos1);
        if !ok {
            proof {
                if g.sewable(i as int, d0@, d1@) {
                    g.lemma_sewable_pairs(i as int, d0@, d1@, paths0, xs, paths1, ys);
                    assert forall|k: int| 0 <= k < l0@.len() implies #[trigger] g.pair_fits(
                        i as int,
                        xs,
                        ys,
                        k,
                    ) by {
                        assert(g.live(xs[k]) && g.live(ys[k]));
                        if listed(ys, xs[k]) {
                            let m = choose|m: int| 0 <= m < ys.len() && #[trigger] ys[m] == xs[k];
                            assert(xs[k] != ys[m]);
                        }
                    }
                }
            }
            return Err(GMapError::Unsewable);
        }
        proof {
            g.lemma_listing_first(a, d0@, paths0, xs);
            g.lemma_listing_first(a, d1@, paths1, ys);
            assert(g.pairs_closed(i as int, xs, ys)) by {
                assert forall|k: int, j: int|
                    0 <= k < xs.len() && g.has_index(j) && a.contains(j) implies paired(
                    xs,
                    ys,
                    #[trigger] g.al(xs[k], j),
                    g.al(ys[k], j),
                ) by {
                    assert(g.pair_fits(i as int, xs, ys, k));
                }
            }
            assert(g.pairs_free(i as int, xs, ys)) by {
                assert forall|k: int| 0 <= k < xs.len() implies g.live(#[trigger] xs[k])
                    && g.is_free(xs[k], i as int) by {
                    assert(g.pair_fits(i as int, xs, ys, k));
                    g.lemma_listing_has_dart(a, d0@, paths0, xs, k);
                    g.lemma_deleted_closure(a, d0@, xs[k]);
                }
                assert forall|k: int| 0 <= k < ys.len() implies g.live(#[trigger] ys[k])
                    && g.is_free(ys[k], i as int) by {
                    assert(g.pair_fits(i as int, xs, ys, k));
                    g.lemma_listing_has_dart(a, d1@, paths1, ys, k);
                    g.lemma_deleted_closure(a, d1@, ys[k]);
                }
                assert forall|k1: int, k2: int|
                    0 <= k1 < xs.len() && 0 <= k2 < ys.len() implies #[trigger] xs[k1]
                    != #[trigger] ys[k2] by {
                    assert(g.pair_fits(i as int, xs, ys, k1));
                    if xs[k1] == ys[k2] {
                        assert(listed(ys, xs[k1]));
                    }
                }
            }
            g.lemma_pairs_matched(i as int, d0@, d1@, xs, ys);
            assert(g.sewable(i as int, d0@, d1@)) by {
                assert forall|e: int|
                    #![trigger g.reaches(a, d0@, e)]
                    #![trigger g.reaches(a, d1@, e)]
                    g.reaches(a, d0@, e) || g.reaches(a, d1@, e) implies g.is_free(e, i as int) by {
                    g.lemma_listing_darts(a, d0@, paths0, xs, e);
                    g.lemma_listing_darts(a, d1@, paths1, ys, e);
                    if listed(xs, e) {
                        let m = choose|m: int| 0 <= m < xs.len() && #[trigger] xs[m] == e;
                        assert(g.is_free(xs[m], i as int));
                    }
                    if listed(ys, e) {
                        let m = choose|m: int| 0 <= m < ys.len() && #[trigger] ys[m] == e;
                        assert(g.is_free(ys[m], i as int));
                    }
                }
                assert forall|e: int|
                    !(#[trigger] g.reaches(a, d0@, e) && g.reaches(a, d1@, e)) by {
                    g.lemma_listing_darts(a, d0@, paths0, xs, e);
                    g.lemma_listing_darts(a, d1@, paths1, ys, e);
                    if listed(xs, e) && listed(ys, e) {
                        let m = choose|m: int| 0 <= m < xs.len() && #[trigger] xs[m] == e;
                        let m2 = choose|m2: int| 0 <= m2 < ys.len() && #[trigger] ys[m2] == e;
                        assert(xs[m] != ys[m2]);
                    }
                }
            }
            g.lemma_sewn_valid(i as int, xs, ys);
        }
        let len: usize = l0.len();
        let mut out: Vec<(Dart, Dart)> = Vec::new();
        let mut k: usize = 0;
        proof {
            assert(xs.take(0) =~= Seq::<int>::empty());
            assert(ys.take(0) =~= Seq::<int>::empty());
        }
        while k < len
            invariant
                k <= len,
                len == l0@.len(),
                l0@.len() == l1@.len(),
                xs == listing_darts(l0@),
                ys == listing_darts(l1@),
                g.valid(),
                g.has_index(i as int),
                g.pairs_free(i as int, xs, ys),
                self.wf_links(),
                self@ == g.linked_all(i as int, xs.take(k as int), ys.take(k as int)),
                out@.len() == k,
                forall|m: int| 0 <= m < k ==> out@[m] == (l0@[m].1, l1@[m].1),
            decreases len - k,
        {
            let x: Dart = l0[k].1;
            let y: Dart = l1[k].1;
            proof {
                let xs0 = xs.take(k as int);
                let ys0 = ys.take(k as int);
                assert(xs[k as int] == x@ && ys[k as int] == y@);
                assert(g.live(xs[k as int]) && g.live(ys[k as int]));
                assert(g.pairs_free(i as int, xs0, ys0)) by {
                    assert forall|m: int| 0 <= m < xs0.len() implies g.live(#[trigger] xs0[m])
                        && g.is_free(xs0[m], i as int) by {
                        assert(g.live(xs[m]));
                    }
                    assert forall|m: int| 0 <= m < ys0.len() implies g.live(#[trigger] ys0[m])
                        && g.is_free(ys0[m], i as int) by {
                        assert(g.live(ys[m]));
                    }
                    assert forall|k1: int, k2: int| 0 <= k1 < k2 < xs0.len() implies #[trigger] xs0[k1]
                        != #[trigger] xs0[k2] by {
                        assert(xs[k1] != xs[k2]);
                    }
                    assert forall|k1: int, k2: int| 0 <= k1 < k2 < ys0.len() implies #[trigger] ys0[k1]
                        != #[trigger] ys0[k2] by {
                        assert(ys[k1] != ys[k2]);
                    }
                    assert forall|k1: int, k2: int|
                        0 <= k1 < xs0.len() && 0 <= k2 < ys0.len() implies #[trigger] xs0[k1]
                        != #[trigger] ys0[k2] by {
                        assert(xs[k1] != ys[k2]);
                    }
                }
                g.lemma_linked_all(i as int, xs0, ys0);
                assert(!listed(xs0, x@)) by {
                    if listed(xs0, x@) {
                        let m = choose|m: int| 0 <= m < xs0.len() && #[trigger] xs0[m] == x@;
                        assert(xs[m] != xs[k as int]);
                    }
                }
                assert(!listed(ys0, x@)) by {
                    if listed(ys0, x@) {
                        let m = choose|m: int| 0 <= m < ys0.len() && #[trigger] ys0[m] == x@;
                        assert(xs[k as int] != ys[m]);
                    }
                }
                assert(!listed(xs0, y@)) by {
                    if listed(xs0, y@) {
                        let m = choose|m: int| 0 <= m < xs0.len() && #[trigger] xs0[m] == y@;
                        assert(xs[m] != ys[k as int]);
                    }
                }
                assert(!listed(ys0, y@)) by {
                    if listed(ys0, y@) {
                        let m = choose|m: int| 0 <= m < ys0.len() && #[trigger] ys0[m] == y@;
                        assert(ys[m] != ys[k as int]);
                    }
                }
                assert(self@.al(x@, i as int) == g.al(x@, i as int));
                assert(self@.al(y@, i as int) == g.al(y@, i as int));
                assert(xs.take(k as int + 1).drop_last() =~= xs0);
                assert(ys.take(k as int + 1).drop_last() =~= ys0);
            }
            let linked = self.link(i, x, y);
            assert(linked is Ok);
            out.push((x, y));
            k += 1;
        }
        proof {
            assert(xs.take(k as int) =~= xs);
            assert(ys.take(k as int) =~= ys);
            assert(pair_firsts(out@) =~= xs);
            assert(pair_seconds(out@) =~= ys);
            assert(g.lists_orbit(a, d0@, paths0, pair_firsts(out@)));
            assert(g.lists_orbit(a, d1@, paths1, pair_seconds(out@)));
            g.lemma_linked_all(i as int, xs, ys);
            assert(g.orbit_is(a, d0@, xs));
            assert(g.orbit_is(a, d1@, ys));
            assert(g.orbit_is(a, d0@, g.orbit_list(a, d0@)));
            assert(g.orbit_is(a, d1@, g.orbit_list(a, d1@)));
            g.lemma_orbit_deterministic(a, d0@, xs, g.orbit_list(a, d0@));
            g.lemma_orbit_deterministic(a, d1@, ys, g.orbit_list(a, d1@));
        }
        Ok(out)
    }
}

} // verus!

verus! {

impl GMap {
    /// Unsews the cell at `d` along `alpha_i`: unlinks every dart of the cell
    /// from its image. Returns the pairs that were unlinked, in the order of
    /// the enumeration of the cell. Nothing changes when the cell cannot be
    /// unsewn.
    pub fn unsew(&mut self, d: Dart, i: usize) -> (r: Result<Vec<(Dart, Dart)>, GMapError>)
        requires
            old(self).wf(),
            old(self)@.has_index(i as int),
            old(self)@.has_dart(d@),
        ensures
            final(self).wf(),
            match r {
                Ok(pairs) => {
                    &&& old(self)@.live(d@)
                    &&& !old(self)@.is_free(d@, i as int)
                    &&& old(self)@.unsewable(i as int, d@)
                    &&& old(self)@.orbit_is(Alphas::spec_apart(i as int), d@, pair_firsts(pairs@))
                    &&& forall|k: int|
                        0 <= k < pairs@.len() ==> (#[trigger] pairs@[k]).1@ == old(self)@.al(
                            pairs@[k].0@,
                            i as int,
                        )
                    &&& final(self)@ == old(self)@.unlinked_all(i as int, pair_firsts(pairs@))
                },
                Err(GMapError::Deleted) => !old(self)@.live(d@) && final(self)@ == old(self)@,
                Err(GMapError::AlreadyFree) => old(self)@.live(d@) && old(self)@.is_free(
                    d@,
                    i as int,
                ) && final(self)@ == old(self)@,
                Err(GMapError::Ununsewable) => old(self)@.live(d@) && !old(self)@.is_free(
                    d@,
                    i as int,
                ) && !old(self)@.unsewable(i as int, d@) && final(self)@ == old(self)@,
                Err(_) => false,
            },
    {
        if self.is_deleted(d) {
            return Err(GMapError::Deleted);
        }
        if self.is_free(d, i) {
            return Err(GMapError::AlreadyFree);
        }
        let ghost g = self@;
        let ghost a = Alphas::spec_apart(i as int);
        let n: usize = self.ndarts();
        let mask = Alphas::apart(i);
        let ob = self.orbit(d, mask);
        let ghost xs = dart_seq(ob@);
        let len: usize = ob.len();
        let mut member: Vec<bool> = all_false(n);
        let mut t: usize = 0;
        while t < len
            invariant
                t <= len,
                len == ob@.len(),
                xs == dart_seq(ob@),
                member@.len() == n,
                n == g.ndarts(),
                forall|m: int| 0 <= m < ob@.len() ==> g.has_dart(#[trigger] ob@[m]@),
                forall|y: int|
                    0 <= y < n ==> (#[trigger] member@[y] <==> exists|m: int|
                        0 <= m < t && #[trigger] xs[m] == y),
            decreases len - t,
        {
            let ghost prev = member@;
            let e: Dart = ob[t];
            proof {
                assert(g.has_dart(ob@[t as int]@));
            }
            member.set(e.0, true);
            proof {
                assert forall|y: int| 0 <= y < n implies (#[trigger] member@[y] <==> exists|m: int|
                    0 <= m < t + 1 && #[trigger] xs[m] == y) by {
                    if y == e@ {
                        assert(xs[t as int] == y);
                    } else {
                        assert(member@[y] == prev[y]);
                        if prev[y] {
                            let m = choose|m: int| 0 <= m < t && #[trigger] xs[m] == y;
                            assert(xs[m] == y);
                        }
                        if exists|m: int| 0 <= m < t + 1 && #[trigger] xs[m] == y {
                            let m = choose|m: int| 0 <= m < t + 1 && #[trigger] xs[m] == y;
                            assert(m < t);
                            assert(xs[m] == y);
                        }
                    }
                }
            }
            t += 1;
        }
        proof {
            assert forall|y: int| 0 <= y < n implies (#[trigger] member@[y] <==> listed(xs, y)) by {
                if member@[y] {
                    let m = choose|m: int| 0 <= m < len && #[trigger] xs[m] == y;
                    assert(xs[m] == y);
                }
                if listed(xs, y) {
                    let m = choose|m: int| 0 <= m < xs.len() && #[trigger] xs[m] == y;
                    assert(xs[m] == y);
                }
            }
        }
        let mut t: usize = 0;
        while t < len
            invariant
                t <= len,
                len == ob@.len(),
                xs == dart_seq(ob@),
                member@.len() == n,
                n == g.ndarts(),
                g == self@,
                g == old(self)@,
                g.live(d@),
                !g.is_free(d@, i as int),
                self.wf(),
                g.has_index(i as int),
                g.has_dart(d@),
                a == Alphas::spec_apart(i as int),
                forall|e: int| g.reaches(a, d@, e) <==> listed(xs, e),
                forall|m: int| 0 <= m < ob@.len() ==> g.has_dart(#[trigger] ob@[m]@),
                forall|y: int| 0 <= y < n ==> (#[trigger] member@[y] <==> listed(xs, y)),
                forall|m: int| 0 <= m < t ==> !listed(xs, g.al(#[trigger] xs[m], i as int)),
            decreases len - t,
        {
            let x: Dart = ob[t];
            proof {
                assert(g.has_dart(ob@[t as int]@));
                assert(xs[t as int] == x@);
                assert(g.has_dart(g.al(x@, i as int)));
            }
            let e: Dart = self.al1(x, i);
            if member[e.0] {
                proof {
                    assert(listed(xs, xs[t as int]));
                    assert(g.reaches(a, d@, x@));
                    assert(g.reaches(a, d@, g.al(x@, i as int)));
                }
                return Err(GMapError::Ununsewable);
            }
            t += 1;
        }
        proof {
            assert(g.unsewable(i as int, d@)) by {
                assert forall|e: int| #[trigger] g.reaches(a, d@, e) implies !g.reaches(
                    a,
                    d@,
                    g.al(e, i as int),
                ) by {
                    assert(listed(xs, e));
                    let m = choose|m: int| 0 <= m < xs.len() && #[trigger] xs[m] == e;
                    assert(!listed(xs, g.al(xs[m], i as int)));
                }
            }
            assert forall|k: int, j: int|
                0 <= k < xs.len() && g.has_index(j) && a.contains(j) implies listed(
                xs,
                #[trigger] g.al(xs[k], j),
            ) by {
                assert(listed(xs, xs[k]));
                g.lemma_reaches_step(a, d@, xs[k], j);
            }
            assert forall|k: int| 0 <= k < xs.len() implies g.has_dart(#[trigger] xs[k]) by {
                assert(g.has_dart(ob@[k]@));
            }
            g.lemma_unsewn_valid(i as int, xs);
        }
        let mut out: Vec<(Dart, Dart)> = Vec::new();
        let mut k: usize = 0;
        proof {
            assert(xs.take(0) =~= Seq::<int>::empty());
        }
        while k < len
            invariant
                k <= len,
                len == ob@.len(),
                xs == dart_seq(ob@),
                a == Alphas::spec_apart(i as int),
                g.valid(),
                g == old(self)@,
                g.unsewable(i as int, d@),
                g.unlinked_all(i as int, xs).valid(),
                g.has_index(i as int),
                g.live(d@),
                !g.is_free(d@, i as int),
                forall|e: int| g.reaches(a, d@, e) <==> listed(xs, e),
                forall|m: int| 0 <= m < xs.len() ==> g.has_dart(#[trigger] xs[m]),
                forall|m: int| 0 <= m < xs.len() ==> !listed(xs, g.al(#[trigger] xs[m], i as int)),
                forall|k1: int, k2: int| 0 <= k1 < k2 < ob@.len() ==> ob@[k1] != ob@[k2],
                self.wf_links(),
                self@ == g.unlinked_all(i as int, xs.take(k as int)),
                out@.len() == k,
                forall|m: int|
                    0 <= m < k ==> (#[trigger] out@[m]).0 == ob@[m] && out@[m].1@ == g.al(
                        ob@[m]@,
                        i as int,
                    ),
            decreases len - k,
        {
            let x: Dart = ob[k];
            proof {
                let xs0 = xs.take(k as int);
                assert(xs[k as int] == x@);
                assert(g.has_dart(xs[k as int]));
                assert forall|m: int| 0 <= m < xs0.len() implies g.has_dart(#[trigger] xs0[m])
                    && !listed(xs0, g.al(xs0[m], i as int)) by {
                    assert(g.has_dart(xs[m]));
                    assert(!listed(xs, g.al(xs[m], i as int)));
                    if listed(xs0, g.al(xs0[m], i as int)) {
                        let m2 = choose|m2: int|
                            0 <= m2 < xs0.len() && #[trigger] xs0[m2] == g.al(xs0[m], i as int);
                        assert(xs[m2] == g.al(xs[m], i as int));
                    }
                }
                g.lemma_unlinked_all(i as int, xs0);
                assert(!listed(xs0, x@)) by {
                    if listed(xs0, x@) {
                        let m = choose|m: int| 0 <= m < xs0.len() && #[trigger] xs0[m] == x@;
                        assert(ob@[m] != ob@[k as int]);
                        assert(xs[m] == ob@[m]@);
                    }
                }
                assert(!listed(xs0, g.al(x@, i as int))) by {
                    assert(!listed(xs, g.al(xs[k as int], i as int)));
                    if listed(xs0, g.al(x@, i as int)) {
                        let m = choose|m: int|
                            0 <= m < xs0.len() && #[trigger] xs0[m] == g.al(x@, i as int);
                        assert(xs[m] == g.al(x@, i as int));
                    }
                }
                assert(self@.al(x@, i as int) == g.al(x@, i as int));
                // the dart is linked, as the start of the cell is
                assert(listed(xs, xs[k as int]));
                assert(g.reaches(a, d@, x@));
                let p = choose|p: Seq<int>| g.path_in(a, p) && #[trigger] g.walk(d@, p) == x@;
                g.lemma_free_together(i as int, d@, p);
                g.lemma_deleted_closure(a, d@, x@);
                assert(xs.take(k as int + 1).drop_last() =~= xs0);
            }
            let unlinked = self.unlink(i, x);
            assert(unlinked is Ok);
            match unlinked {
                Ok(e) => {
                    out.push((x, e));
                },
                Err(_) => {},
            }
            k += 1;
        }
        proof {
            assert(xs.take(k as int) =~= xs);
            assert(pair_firsts(out@) =~= xs);
        }
        Ok(out)
    }
}

} // verus!

verus! {

impl GMapView {
    /// The enumeration of a cell of two darts: the dart, then its image under
    /// the one involution of the mask that the map has.
    pub proof fn lemma_pair_listing(self, i: int, j: int, x: int)
        requires
            self.sound(),
            self.dimension == 2,
            (i == 0 && j == 2) || (i == 2 && j == 0),
            self.has_dart(x),
            self.al(x, j) != x,
        ensures
            self.lists_orbit(
                Alphas::spec_apart(i),
                x,
                seq![Seq::<int>::empty(), seq![j]],
                seq![x, self.al(x, j)],
            ),
    {
        let a = Alphas::spec_apart(i);
        Alphas::lemma_apart(i);
        let paths = seq![Seq::<int>::empty(), seq![j]];
        let darts = seq![x, self.al(x, j)];
        assert(self.path_in(a, paths[0]));
        assert(self.path_in(a, paths[1])) by {
            assert(a.contains(j));
        }
        assert(self.walk(x, paths[1]) == self.al(x, j)) by {
            assert(Seq::<int>::empty().push(j) =~= paths[1]);
            self.lemma_walk_push(x, Seq::<int>::empty(), j);
        }
        crate::shortlex::lemma_shortlex_extend(Seq::<int>::empty(), j);
        assert(Seq::<int>::empty().push(j) =~= seq![j]);
        assert forall|k1: int, k2: int| 0 <= k1 < k2 < darts.len() implies #[trigger] shortlex_lt(
            paths[k1],
            paths[k2],
        ) by {}
        assert forall|q: Seq<int>| self.path_in(a, q) implies #[trigger] covered(
            paths,
            darts,
            self.walk(x, q),
            q,
        ) by {
            self.lemma_pair_walk(i, j, x, q);
            if q.len() % 2 == 0 {
                assert(darts[0] == self.walk(x, q) && shortlex_le(paths[0], q)) by {
                    if q.len() == 0 {
                        assert(q =~= Seq::<int>::empty());
                    }
                }
            } else {
                assert(darts[1] == self.walk(x, q) && shortlex_le(paths[1], q)) by {
                    if q.len() == 1 {
                        assert(q[0] == j);
                        assert(q =~= seq![j]);
                    }
                }
            }
        }
    }

    /// Walking over the mask from a dart of a cell of two darts stays in the
    /// cell.
    pub proof fn lemma_pair_walk(self, i: int, j: int, x: int, q: Seq<int>)
        requires
            self.sound(),
            self.dimension == 2,
            (i == 0 && j == 2) || (i == 2 && j == 0),
            self.has_dart(x),
            self.path_in(Alphas::spec_apart(i), q),
        ensures
            forall|k: int| 0 <= k < q.len() ==> q[k] == j,
            self.walk(x, q) == (if q.len() % 2 == 0 {
                x
            } else {
                self.al(x, j)
            }),
        decreases q.len(),
    {
        Alphas::lemma_apart(i);
        assert forall|k: int| 0 <= k < q.len() implies q[k] == j by {
            assert(self.has_index(q[k]) && Alphas::spec_apart(i).contains(q[k]));
        }
        if q.len() > 0 {
            self.lemma_path_in_drop_last(Alphas::spec_apart(i), q);
            self.lemma_pair_walk(i, j, x, q.drop_last());
            assert(q.last() == q[q.len() - 1]);
            assert(self.al(self.al(x, j), j) == x);
        }
    }
}

impl GMap {
    /// Sews, in a map of dimension 2, two cells of two darts each along
    /// `alpha_i`, for `i` 0 or 2: links `x` with `y`, and the image of `x`
    /// with the image of `y` under `alpha_j`, `j` being 2 or 0.
    pub fn sew_pair(&mut self, i: usize, x: Dart, y: Dart)
        requires
            old(self).wf(),
            old(self)@.dimension == 2,
            i == 0 || i == 2,
            old(self)@.live(x@),
            old(self)@.live(y@),
            old(self)@.al(x@, 2 - i) != x@,
            old(self)@.al(y@, 2 - i) != y@,
            x@ != y@,
            old(self)@.al(x@, 2 - i) != y@,
            old(self)@.is_free(x@, i as int),
            old(self)@.is_free(y@, i as int),
            old(self)@.is_free(old(self)@.al(x@, 2 - i), i as int),
            old(self)@.is_free(old(self)@.al(y@, 2 - i), i as int),
        ensures
            final(self).wf(),
            final(self)@ == old(self)@.linked(i as int, x@, y@).linked(
                i as int,
                old(self)@.al(x@, 2 - i),
                old(self)@.al(y@, 2 - i),
            ),
    {
        let ghost g = self@;
        let ghost j = 2 - i as int;
        let ghost a = Alphas::spec_apart(i as int);
        let ghost xj = g.al(x@, j);
        let ghost yj = g.al(y@, j);
        let ghost paths = seq![Seq::<int>::empty(), seq![j]];
        let ghost xs = seq![x@, xj];
        let ghost ys = seq![y@, yj];
        proof {
            assert(g.has_dart(xj) && g.has_dart(yj));
            assert(g.al(xj, j) == x@ && g.al(yj, j) == y@);
            g.lemma_pair_listing(i as int, j, x@);
            g.lemma_pair_listing(i as int, j, y@);
            Alphas::lemma_apart(i as int);
            assert(g.pairs_closed(i as int, xs, ys)) by {
                assert forall|k: int, t: int|
                    0 <= k < xs.len() && g.has_index(t) && a.contains(t) implies paired(
                    xs,
                    ys,
                    #[trigger] g.al(xs[k], t),
                    g.al(ys[k], t),
                ) by {
                    assert(t == j);
                    if k == 0 {
                        assert(xs[1] == g.al(xs[0], t) && ys[1] == g.al(ys[0], t));
                    } else {
                        assert(xs[0] == g.al(xs[1], t) && ys[0] == g.al(ys[1], t));
                    }
                }
            }
            g.lemma_pairs_matched(i as int, x@, y@, xs, ys);
            assert(g.sewable(i as int, x@, y@)) by {
                assert forall|e: int|
                    #![trigger g.reaches(a, x@, e)]
                    #![trigger g.reaches(a, y@, e)]
                    g.reaches(a, x@, e) || g.reaches(a, y@, e) implies g.is_free(e, i as int) by {
                    g.lemma_listing_darts(a, x@, paths, xs, e);
                    g.lemma_listing_darts(a, y@, paths, ys, e);
                    if listed(xs, e) {
                        let m = choose|m: int| 0 <= m < xs.len() && #[trigger] xs[m] == e;
                    }
                    if listed(ys, e) {
                        let m = choose|m: int| 0 <= m < ys.len() && #[trigger] ys[m] == e;
                    }
                }
                assert forall|e: int| !(#[trigger] g.reaches(a, x@, e) && g.reaches(a, y@, e)) by {
                    g.lemma_listing_darts(a, x@, paths, xs, e);
                    g.lemma_listing_darts(a, y@, paths, ys, e);
                    if listed(xs, e) && listed(ys, e) {
                        let m = choose|m: int| 0 <= m < xs.len() && #[trigger] xs[m] == e;
                        let m2 = choose|m2: int| 0 <= m2 < ys.len() && #[trigger] ys[m2] == e;
                    }
                }
            }
        }
        let sewn = self.sew(i, x, y);
        proof {
            assert(sewn is Ok);
            let pairs = sewn->Ok_0;
            let firsts = pair_firsts(pairs@);
            let seconds = pair_seconds(pairs@);
            let p1 = choose|p: Seq<Seq<int>>| #[trigger] g.lists_orbit(a, x@, p, firsts);
            let p2 = choose|p: Seq<Seq<int>>| #[trigger] g.lists_orbit(a, y@, p, seconds);
            g.lemma_listing_unique(a, x@, p1, firsts, paths, xs);
            g.lemma_listing_unique(a, y@, p2, seconds, paths, ys);
            assert(xs.drop_last() =~= seq![x@]);
            assert(ys.drop_last() =~= seq![y@]);
            assert(seq![x@].drop_last() =~= Seq::<int>::empty());
            assert(seq![y@].drop_last() =~= Seq::<int>::empty());
            assert(g.linked_all(i as int, seq![x@], seq![y@]) == g.linked(i as int, x@, y@)) by {
                reveal_with_fuel(GMapView::linked_all, 2);
            }
            assert(g.linked_all(i as int, xs, ys) == g.linked(i as int, x@, y@).linked(
                i as int,
                xj,
                yj,
            )) by {
                reveal_with_fuel(GMapView::linked_all, 3);
            }
        }
    }
}

} // verus!
