//! Oriented maps of dimension 2: the darts that point counter-clockwise, and
//! the walks around a vertex and around a face.

use crate::dart::{Alphas, Dart};
use crate::finite::iterate;
use crate::gmap::GMap;
use crate::listing::listed;
use crate::model::GMapView;
use vstd::prelude::*;

verus! {

impl GMapView {
    /// `d` points counter-clockwise in its face: it is the lower dart of its
    /// corner.
    pub open spec fn ccw(self, d: int) -> bool {
        d < self.al(d, 1)
    }

    /// A closed, oriented surface: dimension 2, no dart deleted, no dart free
    /// in any dimension, and `alpha_0` and `alpha_2` turn every dart that
    /// points counter-clockwise into one that points clockwise, and back.
    pub open spec fn closed_oriented(self) -> bool {
        &&& self.dimension == 2
        &&& forall|d: int| self.has_dart(d) ==> !#[trigger] self.deleted[d]
        &&& forall|d: int|
            self.has_dart(d) ==> #[trigger] self.al(d, 0) != d && self.ccw(self.al(d, 0))
                != self.ccw(d)
        &&& forall|d: int| self.has_dart(d) ==> #[trigger] self.al(d, 1) != d
        &&& forall|d: int|
            self.has_dart(d) ==> #[trigger] self.al(d, 2) != d && self.ccw(self.al(d, 2))
                != self.ccw(d)
    }

    /// One step counter-clockwise around a face: `alpha_1`, then `alpha_0`.
    pub open spec fn face_step(self) -> spec_fn(int) -> int {
        self.walk_fn(seq![1int, 0int])
    }

    /// One step counter-clockwise around a vertex: `alpha_2`, then `alpha_1`.
    pub open spec fn vertex_step(self) -> spec_fn(int) -> int {
        self.walk_fn(seq![2int, 1int])
    }

    /// `xs` is the walk from `d` along `step`, up to the last dart before `d`
    /// comes again.
    pub open spec fn is_turn(self, step: spec_fn(int) -> int, d: int, xs: Seq<int>) -> bool {
        &&& xs.len() >= 1
        &&& forall|k: int| 0 <= k < xs.len() ==> xs[k] == #[trigger] iterate(step, k as nat, d)
        &&& iterate(step, xs.len(), d) == d
        &&& forall|k: nat| 1 <= k < xs.len() ==> #[trigger] iterate(step, k, d) != d
    }

    /// The walk from a dart along a step is determined.
    pub proof fn lemma_turn_unique(
        self,
        step: spec_fn(int) -> int,
        d: int,
        xs: Seq<int>,
        ys: Seq<int>,
    )
        requires
            self.is_turn(step, d, xs),
            self.is_turn(step, d, ys),
        ensures
            xs == ys,
    {
        if xs.len() < ys.len() {
            assert(iterate(step, xs.len(), d) != d);
        }
        if ys.len() < xs.len() {
            assert(iterate(step, ys.len(), d) != d);
        }
        assert forall|k: int| 0 <= k < xs.len() implies xs[k] == ys[k] by {
            assert(xs[k] == iterate(step, k as nat, d));
            assert(ys[k] == iterate(step, k as nat, d));
        }
        assert(xs =~= ys);
    }

    /// No dart comes twice on a walk.
    pub proof fn lemma_turn_distinct(self, step: spec_fn(int) -> int, d: int, xs: Seq<int>)
        requires
            self.is_turn(step, d, xs),
        ensures
            forall|k1: int, k2: int| 0 <= k1 < k2 < xs.len() ==> xs[k1] != xs[k2],
    {
        assert forall|k1: int, k2: int| 0 <= k1 < k2 < xs.len() implies xs[k1] != xs[k2] by {
            if xs[k1] == xs[k2] {
                assert(xs[k1] == iterate(step, k1 as nat, d));
                assert(xs[k2] == iterate(step, k2 as nat, d));
                // going on from both for the rest of the walk from `k2` leads to `d`
                crate::finite::lemma_iterate_add(step, (xs.len() - k2) as nat, k1 as nat, d);
                crate::finite::lemma_iterate_add(step, (xs.len() - k2) as nat, k2 as nat, d);
                assert((xs.len() - k2) as nat + k2 as nat == xs.len());
                assert((xs.len() - k2) as nat + k1 as nat == (k1 + xs.len() - k2) as nat);
                assert(iterate(step, (k1 + xs.len() - k2) as nat, d) == d);
                if k1 + xs.len() - k2 >= 1 {
                    assert(false);
                }
            }
        }
    }

    /// Two steps that are two involutions in turn: what one step does.
    pub proof fn lemma_step(self, d: int, j: int, i: int)
        ensures
            self.walk_fn(seq![j, i])(d) == self.al(self.al(d, j), i),
    {
        let e = Seq::<int>::empty();
        self.lemma_walk_push(d, e, j);
        self.lemma_walk_push(d, e.push(j), i);
        assert(e.push(j).push(i) =~= seq![j, i]);
    }
}

impl GMapView {
    /// Every dart of a walk by two involutions of a mask lies in the orbit of
    /// its first dart.
    pub proof fn lemma_turn_reaches(self, a: Alphas, j: int, i: int, d: int, k: nat)
        requires
            self.sound(),
            self.has_dart(d),
            self.has_index(i),
            self.has_index(j),
            a.contains(i),
            a.contains(j),
        ensures
            self.reaches(a, d, iterate(self.walk_fn(seq![j, i]), k, d)),
            self.has_dart(iterate(self.walk_fn(seq![j, i]), k, d)),
        decreases k,
    {
        let f = self.walk_fn(seq![j, i]);
        if k == 0 {
            self.lemma_reaches_refl(a, d);
        } else {
            self.lemma_turn_reaches(a, j, i, d, (k - 1) as nat);
            let x = iterate(f, (k - 1) as nat, d);
            self.lemma_step(x, j, i);
            self.lemma_reaches_step(a, d, x, j);
            assert(self.has_dart(self.al(x, j)));
            self.lemma_reaches_step(a, d, self.al(x, j), i);
        }
    }

    /// In a closed oriented map, a step around a face or a vertex keeps the
    /// sense in which a dart points.
    pub proof fn lemma_turn_ccw(self, j: int, i: int, d: int, k: nat)
        requires
            self.sound(),
            self.closed_oriented(),
            self.has_dart(d),
            (j == 1 && i == 0) || (j == 2 && i == 1),
        ensures
            self.ccw(iterate(self.walk_fn(seq![j, i]), k, d)) == self.ccw(d),
            self.has_dart(iterate(self.walk_fn(seq![j, i]), k, d)),
        decreases k,
    {
        let f = self.walk_fn(seq![j, i]);
        if k > 0 {
            self.lemma_turn_ccw(j, i, d, (k - 1) as nat);
            let x = iterate(f, (k - 1) as nat, d);
            self.lemma_step(x, j, i);
            self.lemma_flip(x);
            assert(self.has_dart(self.al(x, j)));
            self.lemma_flip(self.al(x, j));
        }
    }

    /// In a closed oriented map every involution turns the sense in which a
    /// dart points.
    pub proof fn lemma_flip(self, d: int)
        requires
            self.sound(),
            self.closed_oriented(),
            self.has_dart(d),
        ensures
            self.ccw(self.al(d, 0)) != self.ccw(d),
            self.ccw(self.al(d, 1)) != self.ccw(d),
            self.ccw(self.al(d, 2)) != self.ccw(d),
            self.al(d, 0) != d,
            self.al(d, 1) != d,
            self.al(d, 2) != d,
    {
        let e = self.al(d, 1);
        assert(self.has_dart(e));
        assert(self.al(e, 1) == d);
    }

    /// The least dart of an orbit whose mask holds `alpha_1` points
    /// counter-clockwise.
    pub proof fn lemma_min_ccw(self, a: Alphas, d: int)
        requires
            self.sound(),
            self.closed_oriented(),
            self.has_dart(d),
            self.is_orbit_min(a, d),
            a.contains(1),
        ensures
            self.ccw(d),
    {
        self.lemma_reaches_refl(a, d);
        self.lemma_reaches_step(a, d, d, 1);
        self.lemma_flip(d);
    }

    /// The orbit of a dart under two involutions is the walk from the dart
    /// together with its image: every dart that a path over the mask reaches
    /// is a dart of the walk, or the image under the second involution of
    /// one.
    pub proof fn lemma_orbit_of_turn(
        self,
        a: Alphas,
        j: int,
        i: int,
        d: int,
        xs: Seq<int>,
        p: Seq<int>,
    )
        requires
            self.sound(),
            self.has_dart(d),
            self.has_index(i),
            self.has_index(j),
            i != j,
            forall|k: int| self.has_index(k) && a.contains(k) ==> k == i || k == j,
            self.is_turn(self.walk_fn(seq![j, i]), d, xs),
            self.path_in(a, p),
        ensures
            listed(xs, self.walk(d, p)) || listed(xs, self.al(self.walk(d, p), i)),
        decreases p.len(),
    {
        let f = self.walk_fn(seq![j, i]);
        if p.len() == 0 {
            let z: int = 0;
            assert(xs[z] == iterate(f, z as nat, d));
        } else {
            self.lemma_path_in_drop_last(a, p);
            let q = p.drop_last();
            let t = p.last();
            self.lemma_orbit_of_turn(a, j, i, d, xs, q);
            self.lemma_walk_has_dart(a, d, q);
            let y = self.walk(d, q);
            let z = self.al(y, t);
            assert(self.has_dart(z));
            assert(self.al(z, t) == y);
            if listed(xs, y) {
                let k = choose|k: int| 0 <= k < xs.len() && #[trigger] xs[k] == y;
                if t == i {
                    // the image of `z` under the second involution is `y`
                } else {
                    // `alpha_i(alpha_j(y))` is the next dart of the walk
                    self.lemma_step(y, j, i);
                    self.lemma_turn_next(f, d, xs, k);
                }
            } else {
                let w = self.al(y, i);
                assert(self.has_dart(w));
                assert(self.al(w, i) == y);
                let k = choose|k: int| 0 <= k < xs.len() && #[trigger] xs[k] == w;
                if t == i {
                } else {
                    // `y` is `alpha_i` of a dart `w` of the walk; the dart before `w`
                    // on the walk is `alpha_j(y)`
                    self.lemma_turn_prev(f, d, xs, k);
                    let kp = if k == 0 {
                        xs.len() - 1
                    } else {
                        k - 1
                    };
                    let v = xs[kp];
                    assert(xs[kp] == iterate(f, kp as nat, d));
                    self.lemma_turn_has_dart(j, i, d, kp as nat);
                    self.lemma_step(v, j, i);
                    assert(self.has_dart(self.al(v, j)));
                    assert(self.al(self.al(v, j), i) == w);
                    assert(self.al(w, i) == self.al(v, j));
                    assert(self.al(self.al(v, j), j) == v);
                }
            }
        }
    }

    /// Every dart of a walk by two involutions is a dart of the map.
    pub proof fn lemma_turn_has_dart(self, j: int, i: int, d: int, k: nat)
        requires
            self.sound(),
            self.has_dart(d),
            self.has_index(i),
            self.has_index(j),
        ensures
            self.has_dart(iterate(self.walk_fn(seq![j, i]), k, d)),
        decreases k,
    {
        if k > 0 {
            self.lemma_turn_has_dart(j, i, d, (k - 1) as nat);
            let x = iterate(self.walk_fn(seq![j, i]), (k - 1) as nat, d);
            self.lemma_step(x, j, i);
            assert(self.has_dart(self.al(x, j)));
        }
    }

    /// The step from a dart of a walk leads to the next dart of the walk, or
    /// from the last to the first.
    pub proof fn lemma_turn_next(self, f: spec_fn(int) -> int, d: int, xs: Seq<int>, k: int)
        requires
            self.is_turn(f, d, xs),
            0 <= k < xs.len(),
        ensures
            f(xs[k]) == (if k + 1 < xs.len() {
                xs[k + 1]
            } else {
                xs[0]
            }),
    {
        assert(xs[k] == iterate(f, k as nat, d));
        assert(iterate(f, (k + 1) as nat, d) == f(iterate(f, k as nat, d)));
        if k + 1 < xs.len() {
            assert(xs[k + 1] == iterate(f, (k + 1) as nat, d));
        } else {
            let z: int = 0;
            assert(xs[z] == iterate(f, z as nat, d));
        }
    }

    /// Every dart of a walk is the step from the dart before it on the walk,
    /// the first from the last.
    pub proof fn lemma_turn_prev(self, f: spec_fn(int) -> int, d: int, xs: Seq<int>, k: int)
        requires
            self.is_turn(f, d, xs),
            0 <= k < xs.len(),
        ensures
            f(xs[if k == 0 {
                xs.len() - 1
            } else {
                k - 1
            }]) == xs[k],
    {
        let kp = if k == 0 {
            xs.len() - 1
        } else {
            k - 1
        };
        self.lemma_turn_next(f, d, xs, kp);
    }
}

impl GMapView {
    /// The least dart of the orbit of `d`.
    pub open spec fn least(self, a: Alphas, d: int) -> int {
        choose|m: int| self.is_min_of(a, d, m)
    }

    /// The least dart of the vertex of `d`.
    pub open spec fn vertex_of(self, d: int) -> int {
        self.least(Alphas::vertex(), d)
    }

    /// The least dart of the face of `d`.
    pub open spec fn face_of(self, d: int) -> int {
        self.least(Alphas::face(), d)
    }

    /// `f` stands for its face: it is the least dart of it.
    pub open spec fn is_face(self, f: int) -> bool {
        self.live(f) && self.is_orbit_min(Alphas::face(), f)
    }

    /// Among the darts that `d` reaches and that are no greater than `m`,
    /// one is the least of the orbit.
    proof fn lemma_least_below(self, a: Alphas, d: int, m: int)
        requires
            self.shaped(),
            self.has_dart(d),
            self.reaches(a, d, m),
        ensures
            exists|l: int| self.is_min_of(a, d, l),
        decreases m,
    {
        self.lemma_reaches_has_dart(a, d, m);
        if exists|e: int| self.reaches(a, d, e) && e < m {
            let e = choose|e: int| self.reaches(a, d, e) && e < m;
            self.lemma_reaches_has_dart(a, d, e);
            self.lemma_least_below(a, d, e);
        } else {
            assert(self.is_min_of(a, d, m));
        }
    }

    /// Every orbit has a least dart: it lies in the orbit, no dart of the
    /// orbit is less, and it is the least dart of its own orbit.
    pub proof fn lemma_least(self, a: Alphas, d: int)
        requires
            self.sound(),
            self.has_dart(d),
        ensures
            self.is_min_of(a, d, self.least(a, d)),
            self.has_dart(self.least(a, d)),
            self.reaches(a, self.least(a, d), d),
            self.is_orbit_min(a, self.least(a, d)),
            self.least(a, d) <= d,
    {
        self.lemma_reaches_refl(a, d);
        self.lemma_least_below(a, d, d);
        let l = self.least(a, d);
        self.lemma_reaches_has_dart(a, d, l);
        self.lemma_reaches_sym(a, d, l);
        assert forall|e: int| #[trigger] self.reaches(a, l, e) implies l <= e by {
            self.lemma_reaches_trans(a, d, l, e);
        }
    }

    /// The least dart of an orbit is the least dart of every dart of the
    /// orbit.
    pub proof fn lemma_least_of(self, a: Alphas, m: int, d: int)
        requires
            self.sound(),
            self.has_dart(m),
            self.is_orbit_min(a, m),
            self.reaches(a, m, d),
        ensures
            self.least(a, d) == m,
    {
        self.lemma_reaches_has_dart(a, m, d);
        self.lemma_least(a, d);
        let l = self.least(a, d);
        self.lemma_reaches_sym(a, m, d);
        self.lemma_reaches_trans(a, m, d, l);
        assert(self.reaches(a, d, m));
    }

    /// In a closed oriented map, the darts of the walk round a face or a
    /// vertex from its least dart are the darts of it that point
    /// counter-clockwise.
    pub proof fn lemma_turn_covers(self, a: Alphas, j: int, i: int, m: int, xs: Seq<int>, d: int)
        requires
            self.sound(),
            self.closed_oriented(),
            self.has_dart(m),
            self.is_orbit_min(a, m),
            (j == 1 && i == 0 && a == Alphas::face()) || (j == 2 && i == 1 && a == Alphas::vertex()),
            self.is_turn(self.walk_fn(seq![j, i]), m, xs),
            self.has_dart(d),
        ensures
            listed(xs, d) <==> self.ccw(d) && self.least(a, d) == m,
    {
        Alphas::lemma_named_masks();
        self.lemma_min_ccw(a, m);
        let f = self.walk_fn(seq![j, i]);
        if listed(xs, d) {
            let k = choose|k: int| 0 <= k < xs.len() && #[trigger] xs[k] == d;
            assert(xs[k] == iterate(f, k as nat, m));
            self.lemma_turn_ccw(j, i, m, k as nat);
            self.lemma_turn_reaches(a, j, i, m, k as nat);
            self.lemma_least_of(a, m, d);
        }
        if self.ccw(d) && self.least(a, d) == m {
            self.lemma_least(a, d);
            let p = choose|p: Seq<int>| self.path_in(a, p) && #[trigger] self.walk(m, p) == d;
            self.lemma_orbit_of_turn(a, j, i, m, xs, p);
            if !listed(xs, d) {
                let e = self.al(d, i);
                let k = choose|k: int| 0 <= k < xs.len() && #[trigger] xs[k] == e;
                assert(xs[k] == iterate(f, k as nat, m));
                self.lemma_turn_ccw(j, i, m, k as nat);
                self.lemma_flip(d);
            }
        }
    }
}

} // verus!
