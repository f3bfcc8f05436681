//! The mathematical model of a G-map: darts as integers, involutions as a
//! table, orbits as reachability along paths of involution indices.

use crate::dart::Alphas;
use vstd::prelude::*;

verus! {

/// What a G-map is, apart from how it is stored: its dimension, the image of
/// every dart under every involution, and the tombstone of every dart.
#[verifier::ext_equal]
pub struct GMapView {
    pub dimension: int,
    /// `alpha[d][i]` is the image of dart `d` under `alpha_i`.
    pub alpha: Seq<Seq<int>>,
    pub deleted: Seq<bool>,
}

impl GMapView {
    pub open spec fn ndarts(self) -> int {
        self.alpha.len() as int
    }

    pub open spec fn has_dart(self, d: int) -> bool {
        0 <= d < self.alpha.len()
    }

    pub open spec fn has_index(self, i: int) -> bool {
        0 <= i <= self.dimension
    }

    /// The image of `d` under `alpha_i`.
    pub open spec fn al(self, d: int, i: int) -> int {
        self.alpha[d][i]
    }

    /// Where the image of `d` under `alpha_i` stands in the flat table.
    pub open spec fn slot(self, d: int, i: int) -> int {
        d * (self.dimension + 1) + i
    }

    pub open spec fn is_free(self, d: int, i: int) -> bool {
        self.al(d, i) == d
    }

    pub open spec fn live(self, d: int) -> bool {
        self.has_dart(d) && !self.deleted[d]
    }

    /// Every row has `dimension + 1` entries, each of them a dart of the map.
    pub open spec fn shaped(self) -> bool {
        &&& 0 <= self.dimension <= 31
        &&& self.deleted.len() == self.alpha.len()
        &&& forall|d: int|
            0 <= d < self.alpha.len() ==> (#[trigger] self.alpha[d]).len() == self.dimension + 1
        &&& forall|d: int, i: int|
            self.has_dart(d) && self.has_index(i) ==> self.has_dart(#[trigger] self.al(d, i))
    }

    /// Every `alpha_i` is its own inverse.
    pub open spec fn involutive(self) -> bool {
        forall|d: int, i: int|
            self.has_dart(d) && self.has_index(i) ==> self.al(#[trigger] self.al(d, i), i) == d
    }

    /// `alpha_i` and `alpha_j` commute whenever `i` and `j` are two or more
    /// apart; with `involutive` this says that their composition is an
    /// involution.
    pub open spec fn commuting(self) -> bool {
        forall|d: int, i: int, j: int|
            #![trigger self.al(self.al(d, i), j)]
            #![trigger self.al(self.al(d, j), i)]
            self.has_dart(d) && 0 <= i && i + 2 <= j <= self.dimension ==> self.al(
                self.al(d, i),
                j,
            ) == self.al(self.al(d, j), i)
    }

    /// A dart and its images are deleted together.
    pub open spec fn entombed(self) -> bool {
        forall|d: int, i: int|
            self.has_dart(d) && self.has_index(i) ==> self.deleted[#[trigger] self.al(d, i)]
                == self.deleted[d]
    }

    /// What single links keep: shape, involutions and tombstones.
    pub open spec fn sound(self) -> bool {
        &&& self.shaped()
        &&& self.involutive()
        &&& self.entombed()
    }

    /// A valid G-map.
    pub open spec fn valid(self) -> bool {
        &&& self.sound()
        &&& self.commuting()
    }

    /// Every entry of `p` is an index of the map that `a` selects.
    pub open spec fn path_in(self, a: Alphas, p: Seq<int>) -> bool {
        forall|k: int| 0 <= k < p.len() ==> self.has_index(#[trigger] p[k]) && a.contains(p[k])
    }

    /// The dart reached from `d` by applying the involutions of `p` in order.
    pub open spec fn walk(self, d: int, p: Seq<int>) -> int
        decreases p.len(),
    {
        if p.len() == 0 {
            d
        } else {
            self.al(self.walk(d, p.drop_last()), p.last())
        }
    }

    /// `e` lies in the `a`-orbit of `d`.
    pub open spec fn reaches(self, a: Alphas, d: int, e: int) -> bool {
        exists|p: Seq<int>| self.path_in(a, p) && #[trigger] self.walk(d, p) == e
    }

    /// `d` is the least dart of its `a`-orbit.
    pub open spec fn is_orbit_min(self, a: Alphas, d: int) -> bool {
        forall|e: int| #[trigger] self.reaches(a, d, e) ==> d <= e
    }

    /// `m` is the least dart of the `a`-orbit of `d`.
    pub open spec fn is_min_of(self, a: Alphas, d: int, m: int) -> bool {
        &&& self.reaches(a, d, m)
        &&& forall|e: int| #[trigger] self.reaches(a, d, e) ==> m <= e
    }

    pub proof fn lemma_walk_push(self, d: int, p: Seq<int>, j: int)
        ensures
            self.walk(d, p.push(j)) == self.al(self.walk(d, p), j),
    {
        assert(p.push(j).drop_last() =~= p);
    }

    pub proof fn lemma_walk_concat(self, d: int, p: Seq<int>, q: Seq<int>)
        ensures
            self.walk(d, p + q) == self.walk(self.walk(d, p), q),
        decreases q.len(),
    {
        if q.len() == 0 {
            assert(p + q =~= p);
        } else {
            self.lemma_walk_concat(d, p, q.drop_last());
            assert((p + q).drop_last() =~= p + q.drop_last());
        }
    }

    pub proof fn lemma_walk_has_dart(self, a: Alphas, d: int, p: Seq<int>)
        requires
            self.shaped(),
            self.has_dart(d),
            self.path_in(a, p),
        ensures
            self.has_dart(self.walk(d, p)),
        decreases p.len(),
    {
        if p.len() > 0 {
            assert(self.path_in(a, p.drop_last())) by {
                assert forall|k: int| 0 <= k < p.drop_last().len() implies self.has_index(
                    #[trigger] p.drop_last()[k],
                ) && a.contains(p.drop_last()[k]) by {
                    assert(p.drop_last()[k] == p[k]);
                }
            }
            self.lemma_walk_has_dart(a, d, p.drop_last());
            assert(self.has_index(p[p.len() - 1]));
        }
    }

    pub proof fn lemma_path_in_push(self, a: Alphas, p: Seq<int>, j: int)
        requires
            self.path_in(a, p),
            self.has_index(j),
            a.contains(j),
        ensures
            self.path_in(a, p.push(j)),
    {
        assert forall|k: int| 0 <= k < p.push(j).len() implies self.has_index(
            #[trigger] p.push(j)[k],
        ) && a.contains(p.push(j)[k]) by {
            if k < p.len() {
                assert(p.push(j)[k] == p[k]);
            }
        }
    }

    pub proof fn lemma_path_in_drop_last(self, a: Alphas, p: Seq<int>)
        requires
            self.path_in(a, p),
            p.len() > 0,
        ensures
            self.path_in(a, p.drop_last()),
            self.has_index(p.last()),
            a.contains(p.last()),
    {
        assert forall|k: int| 0 <= k < p.drop_last().len() implies self.has_index(
            #[trigger] p.drop_last()[k],
        ) && a.contains(p.drop_last()[k]) by {
            assert(p.drop_last()[k] == p[k]);
        }
        assert(self.has_index(p[p.len() - 1]));
    }

    pub proof fn lemma_path_in_concat(self, a: Alphas, p: Seq<int>, q: Seq<int>)
        requires
            self.path_in(a, p),
            self.path_in(a, q),
        ensures
            self.path_in(a, p + q),
    {
        assert forall|k: int| 0 <= k < (p + q).len() implies self.has_index(#[trigger] (p + q)[k])
            && a.contains((p + q)[k]) by {
            if k < p.len() {
                assert((p + q)[k] == p[k]);
            } else {
                assert((p + q)[k] == q[k - p.len()]);
            }
        }
    }

    /// Every dart lies in its own orbit.
    pub proof fn lemma_reaches_refl(self, a: Alphas, d: int)
        ensures
            self.reaches(a, d, d),
    {
        let p = Seq::<int>::empty();
        assert(self.path_in(a, p) && self.walk(d, p) == d);
    }

    /// An orbit is closed under the involutions of its mask.
    pub proof fn lemma_reaches_step(self, a: Alphas, d: int, e: int, j: int)
        requires
            self.reaches(a, d, e),
            self.has_index(j),
            a.contains(j),
        ensures
            self.reaches(a, d, self.al(e, j)),
    {
        let p = choose|p: Seq<int>| self.path_in(a, p) && #[trigger] self.walk(d, p) == e;
        self.lemma_path_in_push(a, p, j);
        self.lemma_walk_push(d, p, j);
        assert(self.path_in(a, p.push(j)) && self.walk(d, p.push(j)) == self.al(e, j));
    }

    pub proof fn lemma_reaches_trans(self, a: Alphas, d: int, e: int, f: int)
        requires
            self.reaches(a, d, e),
            self.reaches(a, e, f),
        ensures
            self.reaches(a, d, f),
    {
        let p = choose|p: Seq<int>| self.path_in(a, p) && #[trigger] self.walk(d, p) == e;
        let q = choose|q: Seq<int>| self.path_in(a, q) && #[trigger] self.walk(e, q) == f;
        self.lemma_path_in_concat(a, p, q);
        self.lemma_walk_concat(d, p, q);
        assert(self.path_in(a, p + q) && self.walk(d, p + q) == f);
    }

    /// Along any path, the walk back exists: orbits are symmetric.
    pub proof fn lemma_walk_back(self, a: Alphas, d: int, p: Seq<int>)
        requires
            self.shaped(),
            self.involutive(),
            self.has_dart(d),
            self.path_in(a, p),
        ensures
            self.reaches(a, self.walk(d, p), d),
        decreases p.len(),
    {
        if p.len() == 0 {
            self.lemma_reaches_refl(a, d);
        } else {
            let q = p.drop_last();
            let j = p.last();
            self.lemma_path_in_drop_last(a, p);
            self.lemma_walk_has_dart(a, d, q);
            let e1 = self.walk(d, q);
            let e = self.walk(d, p);
            assert(e == self.al(e1, j));
            assert(self.al(e, j) == e1);
            self.lemma_reaches_refl(a, e);
            self.lemma_reaches_step(a, e, e, j);
            self.lemma_walk_back(a, d, q);
            self.lemma_reaches_trans(a, e, e1, d);
        }
    }

    pub proof fn lemma_reaches_sym(self, a: Alphas, d: int, e: int)
        requires
            self.shaped(),
            self.involutive(),
            self.has_dart(d),
            self.reaches(a, d, e),
        ensures
            self.reaches(a, e, d),
    {
        let p = choose|p: Seq<int>| self.path_in(a, p) && #[trigger] self.walk(d, p) == e;
        self.lemma_walk_back(a, d, p);
    }

    pub proof fn lemma_reaches_has_dart(self, a: Alphas, d: int, e: int)
        requires
            self.shaped(),
            self.has_dart(d),
            self.reaches(a, d, e),
        ensures
            self.has_dart(e),
    {
        let p = choose|p: Seq<int>| self.path_in(a, p) && #[trigger] self.walk(d, p) == e;
        self.lemma_walk_has_dart(a, d, p);
    }

    /// A walk never leaves the tombstone of its start.
    pub proof fn lemma_walk_tombstone(self, a: Alphas, d: int, p: Seq<int>)
        requires
            self.shaped(),
            self.entombed(),
            self.has_dart(d),
            self.path_in(a, p),
        ensures
            self.deleted[self.walk(d, p)] == self.deleted[d],
        decreases p.len(),
    {
        if p.len() > 0 {
            self.lemma_path_in_drop_last(a, p);
            self.lemma_walk_has_dart(a, d, p.drop_last());
            self.lemma_walk_tombstone(a, d, p.drop_last());
        }
    }

    /// No live dart lies in the closure of a deleted dart, under any mask.
    pub proof fn lemma_deleted_closure(self, a: Alphas, d: int, e: int)
        requires
            self.shaped(),
            self.entombed(),
            self.has_dart(d),
            self.reaches(a, d, e),
        ensures
            self.has_dart(e),
            self.deleted[e] == self.deleted[d],
            self.live(e) == self.live(d),
    {
        let p = choose|p: Seq<int>| self.path_in(a, p) && #[trigger] self.walk(d, p) == e;
        self.lemma_walk_tombstone(a, d, p);
        self.lemma_walk_has_dart(a, d, p);
    }

    /// Applying `alpha_i` twice gives the dart back.
    pub proof fn lemma_involution(self, d: int, i: int)
        requires
            self.valid(),
            self.has_dart(d),
            self.has_index(i),
        ensures
            self.al(self.al(d, i), i) == d,
    {
    }

    /// For `i` and `j` two or more apart, `alpha_i alpha_j alpha_i alpha_j`
    /// is the identity.
    pub proof fn lemma_commutation(self, d: int, i: int, j: int)
        requires
            self.valid(),
            self.has_dart(d),
            self.has_index(i),
            self.has_index(j),
            i + 2 <= j || j + 2 <= i,
        ensures
            self.al(self.al(self.al(self.al(d, j), i), j), i) == d,
            self.al(self.al(d, i), j) == self.al(self.al(d, j), i),
    {
        let x = self.al(d, j);
        assert(self.has_dart(x));
        if i + 2 <= j {
            assert(self.al(self.al(d, i), j) == self.al(self.al(d, j), i));
        } else {
            assert(self.al(self.al(d, j), i) == self.al(self.al(d, i), j));
        }
        let y = self.al(x, i);
        assert(self.has_dart(y));
        assert(y == self.al(self.al(d, i), j));
        assert(self.has_dart(self.al(d, i)));
        assert(self.al(y, j) == self.al(d, i));
    }
}

} // verus!

verus! {

impl GMapView {
    /// The map with no darts.
    pub open spec fn empty(dimension: int) -> GMapView {
        GMapView { dimension, alpha: Seq::empty(), deleted: Seq::empty() }
    }

    /// The map in which `alpha_i` sends `d` to `e` and nothing else changes.
    pub open spec fn with_al(self, d: int, i: int, e: int) -> GMapView {
        GMapView {
            dimension: self.dimension,
            alpha: self.alpha.update(d, self.alpha[d].update(i, e)),
            deleted: self.deleted,
        }
    }

    /// The map with `d0` and `d1` made images of each other under `alpha_i`.
    pub open spec fn linked(self, i: int, d0: int, d1: int) -> GMapView {
        self.with_al(d0, i, d1).with_al(d1, i, d0)
    }

    /// The map with `d` and its image under `alpha_i` both made `i`-free.
    pub open spec fn unlinked(self, i: int, d: int) -> GMapView {
        let e = self.al(d, i);
        self.with_al(d, i, d).with_al(e, i, e)
    }

    /// The map with one more dart, free in every dimension and live.
    pub open spec fn with_dart(self) -> GMapView {
        GMapView {
            dimension: self.dimension,
            alpha: self.alpha.push(Seq::new((self.dimension + 1) as nat, |i: int| self.ndarts())),
            deleted: self.deleted.push(false),
        }
    }

    /// The map with two more darts, images of each other under `alpha_0`.
    pub open spec fn with_edge(self) -> GMapView {
        self.with_dart().with_dart().linked(0, self.ndarts(), self.ndarts() + 1)
    }

    /// The map read from a flat table of `dimension + 1` entries per dart,
    /// every dart live.
    pub open spec fn from_table(dimension: int, table: Seq<int>) -> GMapView {
        let n = table.len() as int / (dimension + 1);
        GMapView {
            dimension,
            alpha: Seq::new(
                n as nat,
                |d: int| Seq::new((dimension + 1) as nat, |i: int| table[d * (dimension + 1) + i]),
            ),
            deleted: Seq::new(n as nat, |d: int| false),
        }
    }

    /// A flat table describes a valid map: it holds whole rows, and the map
    /// read from it is valid.
    pub open spec fn table_valid(dimension: int, table: Seq<int>) -> bool {
        &&& 0 <= dimension <= 31
        &&& table.len() as int % (dimension + 1) == 0
        &&& GMapView::from_table(dimension, table).valid()
    }

    /// The map raised to dimension `dim`: every dart is free in the new
    /// dimensions.
    pub open spec fn raised(self, dim: int) -> GMapView {
        GMapView {
            dimension: dim,
            alpha: Seq::new(
                self.alpha.len(),
                |d: int|
                    Seq::new(
                        (dim + 1) as nat,
                        |i: int|
                            if i <= self.dimension {
                                self.alpha[d][i]
                            } else {
                                d
                            },
                    ),
            ),
            deleted: self.deleted,
        }
    }

    /// Linking two free live darts keeps a map sound.
    pub proof fn lemma_linked_sound(self, i: int, d0: int, d1: int)
        requires
            self.sound(),
            self.has_index(i),
            self.has_dart(d0),
            self.has_dart(d1),
            self.is_free(d0, i),
            self.is_free(d1, i),
            self.deleted[d0] == self.deleted[d1],
        ensures
            self.linked(i, d0, d1).sound(),
            self.linked(i, d0, d1).al(d0, i) == d1,
            self.linked(i, d0, d1).al(d1, i) == d0,
            forall|d: int, k: int|
                self.has_dart(d) && self.has_index(k) && !(k == i && (d == d0 || d == d1))
                    ==> #[trigger] self.linked(i, d0, d1).al(d, k) == self.al(d, k),
    {
        let g = self.linked(i, d0, d1);
        assert forall|d: int, k: int| self.has_dart(d) && self.has_index(k) implies (#[trigger] g.al(
            d,
            k,
        )) == (if k == i && d == d0 {
            d1
        } else if k == i && d == d1 {
            d0
        } else {
            self.al(d, k)
        }) by {}
        assert(g.shaped()) by {
            assert forall|d: int| 0 <= d < g.alpha.len() implies (#[trigger] g.alpha[d]).len()
                == g.dimension + 1 by {
                assert(self.alpha[d].len() == self.dimension + 1);
            }
            assert forall|d: int, k: int| g.has_dart(d) && g.has_index(k) implies g.has_dart(
                #[trigger] g.al(d, k),
            ) by {
                assert(self.has_dart(self.al(d, k)));
            }
        }
        assert(g.involutive()) by {
            assert forall|d: int, k: int| g.has_dart(d) && g.has_index(k) implies g.al(
                #[trigger] g.al(d, k),
                k,
            ) == d by {
                let e = self.al(d, k);
                assert(self.has_dart(e));
                assert(self.al(e, k) == d);
            }
        }
        assert(g.entombed()) by {
            assert forall|d: int, k: int| g.has_dart(d) && g.has_index(k) implies g.deleted[#[trigger] g.al(
                d,
                k,
            )] == g.deleted[d] by {
                assert(self.deleted[self.al(d, k)] == self.deleted[d]);
            }
        }
    }

    /// Unlinking a dart keeps a map sound.
    pub proof fn lemma_unlinked_sound(self, i: int, d: int)
        requires
            self.sound(),
            self.has_index(i),
            self.has_dart(d),
        ensures
            self.unlinked(i, d).sound(),
            self.unlinked(i, d).al(d, i) == d,
            self.unlinked(i, d).al(self.al(d, i), i) == self.al(d, i),
            forall|x: int, k: int|
                self.has_dart(x) && self.has_index(k) && !(k == i && (x == d || x == self.al(d, i)))
                    ==> #[trigger] self.unlinked(i, d).al(x, k) == self.al(x, k),
    {
        let g = self.unlinked(i, d);
        let e = self.al(d, i);
        assert(self.has_dart(e));
        assert(self.al(e, i) == d);
        assert forall|x: int, k: int| self.has_dart(x) && self.has_index(k) implies (#[trigger] g.al(
            x,
            k,
        )) == (if k == i && (x == d || x == e) {
            x
        } else {
            self.al(x, k)
        }) by {}
        assert(g.shaped()) by {
            assert forall|x: int| 0 <= x < g.alpha.len() implies (#[trigger] g.alpha[x]).len()
                == g.dimension + 1 by {
                assert(self.alpha[x].len() == self.dimension + 1);
            }
            assert forall|x: int, k: int| g.has_dart(x) && g.has_index(k) implies g.has_dart(
                #[trigger] g.al(x, k),
            ) by {
                assert(self.has_dart(self.al(x, k)));
            }
        }
        assert(g.involutive()) by {
            assert forall|x: int, k: int| g.has_dart(x) && g.has_index(k) implies g.al(
                #[trigger] g.al(x, k),
                k,
            ) == x by {
                let y = self.al(x, k);
                assert(self.has_dart(y));
                assert(self.al(y, k) == x);
            }
        }
        assert(g.entombed()) by {
            assert forall|x: int, k: int| g.has_dart(x) && g.has_index(k) implies g.deleted[#[trigger] g.al(
                x,
                k,
            )] == g.deleted[x] by {
                assert(self.deleted[self.al(x, k)] == self.deleted[x]);
            }
        }
    }

    /// A new dart keeps a map valid, and changes no image of an old dart.
    pub proof fn lemma_with_dart(self)
        requires
            self.sound(),
        ensures
            self.with_dart().sound(),
            self.commuting() ==> self.with_dart().commuting(),
            self.with_dart().ndarts() == self.ndarts() + 1,
            self.with_dart().live(self.ndarts()),
            forall|k: int|
                self.has_index(k) ==> #[trigger] self.with_dart().al(self.ndarts(), k)
                    == self.ndarts(),
            forall|d: int, k: int|
                self.has_dart(d) && self.has_index(k) ==> #[trigger] self.with_dart().al(d, k)
                    == self.al(d, k),
    {
        let g = self.with_dart();
        let n = self.ndarts();
        assert forall|d: int, k: int| g.has_dart(d) && g.has_index(k) implies (#[trigger] g.al(d, k))
            == (if d == n {
            n
        } else {
            self.al(d, k)
        }) by {}
        assert(g.shaped()) by {
            assert forall|d: int| 0 <= d < g.alpha.len() implies (#[trigger] g.alpha[d]).len()
                == g.dimension + 1 by {
                if d < n {
                    assert(self.alpha[d].len() == self.dimension + 1);
                }
            }
            assert forall|d: int, k: int| g.has_dart(d) && g.has_index(k) implies g.has_dart(
                #[trigger] g.al(d, k),
            ) by {
                if d < n {
                    assert(self.has_dart(self.al(d, k)));
                }
            }
        }
        assert(g.involutive()) by {
            assert forall|d: int, k: int| g.has_dart(d) && g.has_index(k) implies g.al(
                #[trigger] g.al(d, k),
                k,
            ) == d by {
                if d < n {
                    let e = self.al(d, k);
                    assert(self.has_dart(e));
                    assert(self.al(e, k) == d);
                }
            }
        }
        assert(g.entombed()) by {
            assert forall|d: int, k: int| g.has_dart(d) && g.has_index(k) implies g.deleted[#[trigger] g.al(
                d,
                k,
            )] == g.deleted[d] by {
                if d < n {
                    assert(self.has_dart(self.al(d, k)));
                    assert(self.deleted[self.al(d, k)] == self.deleted[d]);
                }
            }
        }
        if self.commuting() {
            assert forall|d: int, i: int, j: int|
                #![trigger g.al(g.al(d, i), j)]
                #![trigger g.al(g.al(d, j), i)]
                g.has_dart(d) && 0 <= i && i + 2 <= j <= g.dimension implies g.al(g.al(d, i), j)
                == g.al(g.al(d, j), i) by {
                if d < n {
                    assert(self.has_dart(self.al(d, i)));
                    assert(self.has_dart(self.al(d, j)));
                    assert(self.al(self.al(d, i), j) == self.al(self.al(d, j), i));
                }
            }
        }
    }

    /// Linking by `alpha_i` two darts that are free in every dimension two or
    /// more apart from `i` keeps a map valid.
    pub proof fn lemma_linked_valid(self, i: int, d0: int, d1: int)
        requires
            self.valid(),
            self.has_index(i),
            self.has_dart(d0),
            self.has_dart(d1),
            self.is_free(d0, i),
            self.is_free(d1, i),
            self.deleted[d0] == self.deleted[d1],
            forall|j: int|
                #![trigger self.al(d0, j)]
                #![trigger self.al(d1, j)]
                self.has_index(j) && (j + 2 <= i || i + 2 <= j) ==> self.al(d0, j) == d0
                    && self.al(d1, j) == d1,
        ensures
            self.linked(i, d0, d1).valid(),
    {
        self.lemma_linked_sound(i, d0, d1);
        let g = self.linked(i, d0, d1);
        assert forall|d: int, a: int, b: int|
            #![trigger g.al(g.al(d, a), b)]
            #![trigger g.al(g.al(d, b), a)]
            g.has_dart(d) && 0 <= a && a + 2 <= b <= g.dimension implies g.al(g.al(d, a), b)
            == g.al(g.al(d, b), a) by {
            assert(self.has_dart(self.al(d, a)));
            assert(self.has_dart(self.al(d, b)));
            assert(self.al(self.al(d, a), b) == self.al(self.al(d, b), a));
            assert(self.al(self.al(d, a), a) == d);
            assert(self.al(self.al(d, b), b) == d);
            if a == i {
                assert(self.al(d0, b) == d0 && self.al(d1, b) == d1);
            }
            if b == i {
                assert(self.al(d0, a) == d0 && self.al(d1, a) == d1);
            }
        }
    }
}

} // verus!

verus! {

/// The image under `alpha_k` of the `t`-th dart of a fresh chain of `m`
/// pairs that starts at dart `s`: pairs are joined by `alpha_i`, consecutive
/// pairs by `alpha_j`, and the two ends by `alpha_j` when the chain is closed.
pub open spec fn chain_image(s: int, m: int, i: int, j: int, closed: bool, t: int, k: int) -> int {
    if k == i {
        if t % 2 == 0 {
            s + t + 1
        } else {
            s + t - 1
        }
    } else if k == j {
        if t % 2 == 1 {
            if t == 2 * m - 1 {
                if closed {
                    s
                } else {
                    s + t
                }
            } else {
                s + t + 1
            }
        } else {
            if t == 0 {
                if closed {
                    s + 2 * m - 1
                } else {
                    s
                }
            } else {
                s + t - 1
            }
        }
    } else {
        s + t
    }
}

impl GMapView {
    /// The map with a fresh chain of `m` pairs of darts added.
    pub open spec fn with_chain(self, i: int, j: int, m: int, closed: bool) -> GMapView {
        let s = self.ndarts();
        GMapView {
            dimension: self.dimension,
            alpha: self.alpha + Seq::new(
                (2 * m) as nat,
                |t: int|
                    Seq::new(
                        (self.dimension + 1) as nat,
                        |k: int| chain_image(s, m, i, j, closed, t, k),
                    ),
            ),
            deleted: self.deleted + Seq::new((2 * m) as nat, |t: int| false),
        }
    }

    /// The map with a fresh cycle of `2 n` darts added: `n` pairs joined by
    /// `alpha_i`, each pair joined to the next, and the last to the first, by
    /// `alpha_j`. The new darts are free in every other dimension.
    pub open spec fn with_cycle(self, i: int, j: int, n: int) -> GMapView {
        self.with_chain(i, j, n, true)
    }

    pub proof fn lemma_with_chain_valid(self, i: int, j: int, m: int, closed: bool)
        requires
            self.valid(),
            self.has_index(i),
            self.has_index(j),
            i + 1 == j || j + 1 == i,
            m >= 1,
        ensures
            self.with_chain(i, j, m, closed).valid(),
            self.with_chain(i, j, m, closed).ndarts() == self.ndarts() + 2 * m,
            forall|d: int, k: int|
                self.has_dart(d) && self.has_index(k) ==> #[trigger] self.with_chain(
                    i,
                    j,
                    m,
                    closed,
                ).al(d, k) == self.al(d, k),
            forall|t: int, k: int|
                0 <= t < 2 * m && self.has_index(k) ==> #[trigger] self.with_chain(
                    i,
                    j,
                    m,
                    closed,
                ).al(self.ndarts() + t, k) == chain_image(self.ndarts(), m, i, j, closed, t, k),
    {
        let g = self.with_chain(i, j, m, closed);
        let s = self.ndarts();
        assert forall|d: int, k: int| g.has_dart(d) && g.has_index(k) implies (#[trigger] g.al(d, k))
            == (if d < s {
            self.al(d, k)
        } else {
            chain_image(s, m, i, j, closed, d - s, k)
        }) by {}
        assert(g.shaped()) by {
            assert forall|d: int| 0 <= d < g.alpha.len() implies (#[trigger] g.alpha[d]).len()
                == g.dimension + 1 by {
                if d < s {
                    assert(self.alpha[d].len() == self.dimension + 1);
                }
            }
            assert forall|d: int, k: int| g.has_dart(d) && g.has_index(k) implies g.has_dart(
                #[trigger] g.al(d, k),
            ) by {
                if d < s {
                    assert(self.has_dart(self.al(d, k)));
                }
            }
        }
        assert(g.involutive()) by {
            assert forall|d: int, k: int| g.has_dart(d) && g.has_index(k) implies g.al(
                #[trigger] g.al(d, k),
                k,
            ) == d by {
                if d < s {
                    let e = self.al(d, k);
                    assert(self.has_dart(e));
                    assert(self.al(e, k) == d);
                }
            }
        }
        assert(g.entombed()) by {
            assert forall|d: int, k: int| g.has_dart(d) && g.has_index(k) implies g.deleted[#[trigger] g.al(
                d,
                k,
            )] == g.deleted[d] by {
                if d < s {
                    assert(self.has_dart(self.al(d, k)));
                    assert(self.deleted[self.al(d, k)] == self.deleted[d]);
                }
            }
        }
        assert forall|d: int, a: int, b: int|
            #![trigger g.al(g.al(d, a), b)]
            #![trigger g.al(g.al(d, b), a)]
            g.has_dart(d) && 0 <= a && a + 2 <= b <= g.dimension implies g.al(g.al(d, a), b)
            == g.al(g.al(d, b), a) by {
            if d < s {
                assert(self.has_dart(self.al(d, a)));
                assert(self.has_dart(self.al(d, b)));
                assert(self.al(self.al(d, a), b) == self.al(self.al(d, b), a));
            } else {
                assert(g.has_dart(g.al(d, a)));
                assert(g.has_dart(g.al(d, b)));
            }
        }
    }

    /// What raising the dimension keeps and adds.
    pub proof fn lemma_raised_valid(self, dim: int)
        requires
            self.valid(),
            self.dimension <= dim <= 31,
        ensures
            self.raised(dim).valid(),
            self.raised(dim).ndarts() == self.ndarts(),
            forall|d: int, k: int|
                self.has_dart(d) && self.has_index(k) ==> #[trigger] self.raised(dim).al(d, k)
                    == self.al(d, k),
            forall|d: int, k: int|
                self.has_dart(d) && self.dimension < k <= dim ==> #[trigger] self.raised(dim).al(
                    d,
                    k,
                ) == d,
    {
        let g = self.raised(dim);
        assert forall|d: int, k: int| g.has_dart(d) && g.has_index(k) implies (#[trigger] g.al(d, k))
            == (if k <= self.dimension {
            self.al(d, k)
        } else {
            d
        }) by {}
        assert(g.shaped()) by {
            assert forall|d: int, k: int| g.has_dart(d) && g.has_index(k) implies g.has_dart(
                #[trigger] g.al(d, k),
            ) by {
                if k <= self.dimension {
                    assert(self.has_dart(self.al(d, k)));
                }
            }
        }
        assert(g.involutive()) by {
            assert forall|d: int, k: int| g.has_dart(d) && g.has_index(k) implies g.al(
                #[trigger] g.al(d, k),
                k,
            ) == d by {
                if k <= self.dimension {
                    let e = self.al(d, k);
                    assert(self.has_dart(e));
                    assert(self.al(e, k) == d);
                }
            }
        }
        assert(g.entombed()) by {
            assert forall|d: int, k: int| g.has_dart(d) && g.has_index(k) implies g.deleted[#[trigger] g.al(
                d,
                k,
            )] == g.deleted[d] by {
                if k <= self.dimension {
                    assert(self.has_dart(self.al(d, k)));
                    assert(self.deleted[self.al(d, k)] == self.deleted[d]);
                }
            }
        }
        assert forall|d: int, a: int, b: int|
            #![trigger g.al(g.al(d, a), b)]
            #![trigger g.al(g.al(d, b), a)]
            g.has_dart(d) && 0 <= a && a + 2 <= b <= g.dimension implies g.al(g.al(d, a), b)
            == g.al(g.al(d, b), a) by {
            if a <= self.dimension {
                assert(self.has_dart(self.al(d, a)));
            }
            if b <= self.dimension {
                assert(self.has_dart(self.al(d, b)));
                assert(self.al(self.al(d, a), b) == self.al(self.al(d, b), a));
            }
        }
    }

    /// One more pair at the end of an open chain.
    pub proof fn lemma_chain_extend(self, i: int, j: int, m: int)
        requires
            self.shaped(),
            self.has_index(i),
            self.has_index(j),
            i != j,
            m >= 1,
        ensures
            self.with_chain(i, j, m, false).with_dart().with_dart().linked(
                i,
                self.ndarts() + 2 * m,
                self.ndarts() + 2 * m + 1,
            ).linked(j, self.ndarts() + 2 * m - 1, self.ndarts() + 2 * m) == self.with_chain(
                i,
                j,
                m + 1,
                false,
            ),
    {
        let s = self.ndarts();
        let c = self.with_chain(i, j, m, false);
        let l = c.with_dart().with_dart().linked(i, s + 2 * m, s + 2 * m + 1).linked(
            j,
            s + 2 * m - 1,
            s + 2 * m,
        );
        let r = self.with_chain(i, j, m + 1, false);
        assert(l.alpha.len() == r.alpha.len());
        assert forall|d: int| 0 <= d < r.alpha.len() implies #[trigger] l.alpha[d] =~= r.alpha[d] by {
            if d < s {
                assert(self.alpha[d].len() == self.dimension + 1);
            }
        }
        assert(l.alpha =~= r.alpha);
        assert(l.deleted =~= r.deleted);
        assert(l =~= r);
    }

    /// The first pair of a chain.
    pub proof fn lemma_chain_start(self, i: int, j: int)
        requires
            self.shaped(),
            self.has_index(i),
            self.has_index(j),
            i != j,
        ensures
            self.with_dart().with_dart().linked(i, self.ndarts(), self.ndarts() + 1)
                == self.with_chain(i, j, 1, false),
    {
        let s = self.ndarts();
        let l = self.with_dart().with_dart().linked(i, s, s + 1);
        let r = self.with_chain(i, j, 1, false);
        assert(l.alpha.len() == r.alpha.len());
        assert forall|d: int| 0 <= d < r.alpha.len() implies #[trigger] l.alpha[d] =~= r.alpha[d] by {
            if d < s {
                assert(self.alpha[d].len() == self.dimension + 1);
            }
        }
        assert(l.alpha =~= r.alpha);
        assert(l.deleted =~= r.deleted);
        assert(l =~= r);
    }

    /// Joining the two ends of a chain closes it.
    pub proof fn lemma_chain_close(self, i: int, j: int, m: int)
        requires
            self.shaped(),
            self.has_index(i),
            self.has_index(j),
            i != j,
            m >= 1,
        ensures
            self.with_chain(i, j, m, false).linked(j, self.ndarts(), self.ndarts() + 2 * m - 1)
                == self.with_cycle(i, j, m),
    {
        let s = self.ndarts();
        let l = self.with_chain(i, j, m, false).linked(j, s, s + 2 * m - 1);
        let r = self.with_cycle(i, j, m);
        assert(l.alpha.len() == r.alpha.len());
        assert forall|d: int| 0 <= d < r.alpha.len() implies #[trigger] l.alpha[d] =~= r.alpha[d] by {
            if d < s {
                assert(self.alpha[d].len() == self.dimension + 1);
            }
        }
        assert(l.alpha =~= r.alpha);
        assert(l.deleted =~= r.deleted);
        assert(l =~= r);
    }
}

} // verus!
