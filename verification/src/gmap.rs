//! The dart store: a dense table of darts with `dimension + 1` involutions.

use crate::dart::{Alphas, Dart, GMapError, MAX_DIMENSION};
use crate::model::{chain_image, GMapView};
use vstd::prelude::*;

verus! {

impl View for Dart {
    type V = int;

    open spec fn view(&self) -> int {
        self.0 as int
    }
}

/// The indices of a path, as mathematical integers.
pub open spec fn ints(s: Seq<usize>) -> Seq<int> {
    Seq::new(s.len(), |k: int| s[k] as int)
}

/// The darts of a table, as mathematical integers.
pub open spec fn dart_ints(s: Seq<Dart>) -> Seq<int> {
    Seq::new(s.len(), |k: int| s[k]@)
}

/// A generalized map of some dimension `n`: darts `0..ndarts`, each with its
/// image under `alpha_0 .. alpha_n` and a tombstone.
pub struct GMap {
    dimension: usize,
    /// Indexed as `dart * (dimension + 1) + alpha_index`.
    alpha: Vec<Dart>,
    deleted: Vec<bool>,
}

proof fn lemma_flat_index(n: int, w: int, d: int, i: int)
    by (nonlinear_arith)
    requires
        0 <= d < n,
        0 <= i < w,
    ensures
        0 <= d * w + i < n * w,
        0 <= d * w,
{
}

proof fn lemma_flat_unique(w: int, d1: int, i1: int, d2: int, i2: int)
    by (nonlinear_arith)
    requires
        0 <= i1 < w,
        0 <= i2 < w,
        d1 * w + i1 == d2 * w + i2,
    ensures
        d1 == d2,
        i1 == i2,
{
}

proof fn lemma_flat_rows(len: int, w: int)
    by (nonlinear_arith)
    requires
        0 <= len,
        0 < w,
        len % w == 0,
    ensures
        (len / w) * w == len,
        0 <= len / w,
{
}

/// `format!`, for a table whose length is not a whole number of rows.
#[verifier::external_body]
fn wrong_length_message(len: usize) -> String {
    format!("Wrong number of elements {} in alpha", len)
}

/// `format!`, for an entry of a table that is no dart of the map.
#[verifier::external_body]
fn out_of_range_message(d: usize, i: usize) -> String {
    format!("dart {} index {} out of range", d, i)
}

/// `format!`, for an `alpha_i` that is not its own inverse.
#[verifier::external_body]
fn not_involution_message(i: usize) -> String {
    format!("alpha_{} is not an involution", i)
}

/// `format!`, for `alpha_i` and `alpha_j` that do not commute.
#[verifier::external_body]
fn not_commuting_message(i: usize, j: usize) -> String {
    format!("alpha_{} alpha_{} is not an involution", i, j)
}

impl View for GMap {
    type V = GMapView;

    closed spec fn view(&self) -> GMapView {
        GMapView {
            dimension: self.dimension as int,
            alpha: Seq::new(
                self.deleted.len() as nat,
                |d: int|
                    Seq::new(
                        (self.dimension + 1) as nat,
                        |i: int| self.alpha@[d * (self.dimension + 1) + i]@,
                    ),
            ),
            deleted: self.deleted@,
        }
    }
}

impl GMap {
    /// The storage holds whole rows, one per dart, and one tombstone per dart.
    pub closed spec fn rep_ok(&self) -> bool {
        &&& self.dimension <= MAX_DIMENSION
        &&& self.alpha.len() == self.deleted.len() * (self.dimension + 1)
    }

    /// The storage is consistent and every `alpha_i` is an involution that
    /// keeps tombstones; single links keep this.
    pub open spec fn wf_links(&self) -> bool {
        self.rep_ok() && self@.sound()
    }

    /// The storage is consistent and the map is a valid G-map.
    pub open spec fn wf(&self) -> bool {
        self.rep_ok() && self@.valid()
    }

    proof fn lemma_view(&self)
        requires
            self.rep_ok(),
        ensures
            self@.dimension == self.dimension,
            0 <= self@.dimension <= 31,
            self@.alpha.len() == self.deleted.len(),
            self@.deleted == self.deleted@,
            forall|d: int|
                0 <= d < self@.alpha.len() ==> (#[trigger] self@.alpha[d]).len() == self@.dimension
                    + 1,
            forall|d: int, i: int|
                self@.has_dart(d) && self@.has_index(i) ==> 0 <= self@.slot(d, i)
                    < self.alpha.len(),
            forall|d: int, i: int|
                self@.has_dart(d) && self@.has_index(i) ==> #[trigger] self@.al(d, i)
                    == self.alpha@[self@.slot(d, i)]@,
    {
        assert forall|d: int, i: int| self@.has_dart(d) && self@.has_index(i) implies 0
            <= #[trigger] self@.slot(d, i) < self.alpha.len() by {
            lemma_flat_index(self.deleted.len() as int, self.dimension + 1, d, i);
        }
        assert forall|d: int, i: int| self@.has_dart(d) && self@.has_index(i) implies #[trigger] self@.al(
            d,
            i,
        ) == self.alpha@[self@.slot(d, i)]@ by {
            lemma_flat_index(self.deleted.len() as int, self.dimension + 1, d, i);
        }
    }

    /// The image of dart `d` under `alpha_i`, read from the table.
    fn at(&self, d: usize, i: usize) -> (r: usize)
        requires
            self.rep_ok(),
            self@.has_dart(d as int),
            self@.has_index(i as int),
        ensures
            r == self@.al(d as int, i as int),
    {
        proof {
            self.lemma_view();
            lemma_flat_index(self.deleted.len() as int, self.dimension + 1, d as int, i as int);
        }
        let w: usize = self.dimension + 1;
        self.alpha[d * w + i].0
    }

    /// Writes `e` as the image of dart `d` under `alpha_i`.
    fn set_at(&mut self, d: usize, i: usize, e: usize)
        requires
            old(self).rep_ok(),
            old(self)@.has_dart(d as int),
            old(self)@.has_index(i as int),
        ensures
            final(self).rep_ok(),
            final(self)@ == old(self)@.with_al(d as int, i as int, e as int),
    {
        proof {
            self.lemma_view();
            lemma_flat_index(self.deleted.len() as int, self.dimension + 1, d as int, i as int);
        }
        let w: usize = self.dimension + 1;
        let idx: usize = d * w + i;
        self.alpha.set(idx, Dart(e));
        proof {
            let g = old(self)@.with_al(d as int, i as int, e as int);
            assert(self@.alpha.len() == g.alpha.len());
            assert forall|x: int| 0 <= x < g.alpha.len() implies #[trigger] self@.alpha[x]
                =~= g.alpha[x] by {
                assert forall|k: int| 0 <= k < w implies self@.alpha[x][k] == g.alpha[x][k] by {
                    lemma_flat_index(self.deleted.len() as int, w as int, x, k);
                    if x * w + k == idx {
                        lemma_flat_unique(w as int, x, k, d as int, i as int);
                    }
                }
            }
            assert(self@.alpha =~= g.alpha);
            assert(self@ =~= g);
        }
    }

    pub fn empty(dimension: usize) -> (r: Result<GMap, GMapError>)
        ensures
            match r {
                Ok(g) => dimension <= MAX_DIMENSION && g.wf() && g@ == GMapView::empty(
                    dimension as int,
                ),
                Err(GMapError::DimensionTooLarge) => dimension > MAX_DIMENSION,
                Err(_) => false,
            },
    {
        if dimension > MAX_DIMENSION {
            return Err(GMapError::DimensionTooLarge);
        }
        let g = GMap { dimension, alpha: Vec::new(), deleted: Vec::new() };
        proof {
            assert(g@.alpha =~= Seq::empty());
            assert(g@ =~= GMapView::empty(dimension as int));
        }
        Ok(g)
    }

    /// Reads a map from a flat table of `dimension + 1` entries per dart and
    /// checks that it is valid. Every dart of the map is live.
    pub fn from_alpha(dimension: usize, alpha: Vec<Dart>) -> (r: Result<GMap, GMapError>)
        ensures
            match r {
                Ok(g) => GMapView::table_valid(dimension as int, dart_ints(alpha@)) && g.wf()
                    && g@ == GMapView::from_table(dimension as int, dart_ints(alpha@)),
                Err(GMapError::DimensionTooLarge) => dimension > MAX_DIMENSION,
                Err(GMapError::InvalidAlpha(_)) => dimension <= MAX_DIMENSION
                    && !GMapView::table_valid(dimension as int, dart_ints(alpha@)),
                Err(_) => false,
            },
    {
        if dimension > MAX_DIMENSION {
            return Err(GMapError::DimensionTooLarge);
        }
        let w: usize = dimension + 1;
        if alpha.len() % w != 0 {
            return Err(GMapError::InvalidAlpha(wrong_length_message(alpha.len())));
        }
        let n: usize = alpha.len() / w;
        proof {
            lemma_flat_rows(alpha.len() as int, w as int);
        }
        let mut deleted: Vec<bool> = Vec::new();
        let mut k: usize = 0;
        while k < n
            invariant
                k <= n,
                deleted.len() == k,
                forall|x: int| 0 <= x < k ==> !deleted[x],
            decreases n - k,
        {
            deleted.push(false);
            k += 1;
        }
        let ghost table = dart_ints(alpha@);
        let g = GMap { dimension, alpha, deleted };
        proof {
            let m = GMapView::from_table(dimension as int, table);
            assert(g.rep_ok());
            assert(g@.alpha.len() == m.alpha.len());
            assert forall|x: int| 0 <= x < m.alpha.len() implies #[trigger] g@.alpha[x]
                =~= m.alpha[x] by {
                assert forall|j: int| 0 <= j < w implies g@.alpha[x][j] == m.alpha[x][j] by {
                    lemma_flat_index(n as int, w as int, x, j);
                }
            }
            assert(g@.alpha =~= m.alpha);
            assert(g@.deleted =~= m.deleted);
            assert(g@ =~= m);
        }
        match g.check_valid() {
            Ok(()) => Ok(g),
            Err(e) => Err(e),
        }
    }

    /// Checks the rules of a G-map on a table of the right size: every entry
    /// is a dart, every `alpha_i` is an involution that keeps tombstones, and
    /// `alpha_i`, `alpha_j` commute when `i` and `j` are two or more apart.
    pub fn check_valid(&self) -> (r: Result<(), GMapError>)
        requires
            self.rep_ok(),
        ensures
            match r {
                Ok(()) => self@.valid(),
                Err(GMapError::InvalidAlpha(_)) => !self@.valid(),
                Err(_) => false,
            },
    {
        proof {
            self.lemma_view();
        }
        let n: usize = self.deleted.len();
        let w: usize = self.dimension + 1;
        let mut d: usize = 0;
        while d < n
            invariant
                self.rep_ok(),
                n == self.deleted.len(),
                w == self.dimension + 1,
                d <= n,
                forall|x: int, j: int|
                    0 <= x < d && self@.has_index(j) ==> self@.has_dart(#[trigger] self@.al(x, j)),
            decreases n - d,
        {
            let mut i: usize = 0;
            while i < w
                invariant
                    self.rep_ok(),
                    n == self.deleted.len(),
                    w == self.dimension + 1,
                    d < n,
                    i <= w,
                    forall|x: int, j: int|
                        0 <= x < d && self@.has_index(j) ==> self@.has_dart(
                            #[trigger] self@.al(x, j),
                        ),
                    forall|j: int| 0 <= j < i ==> self@.has_dart(#[trigger] self@.al(d as int, j)),
                decreases w - i,
            {
                proof {
                    self.lemma_view();
                }
                if self.at(d, i) >= n {
                    proof {
                        assert(!self@.has_dart(self@.al(d as int, i as int)));
                    }
                    return Err(GMapError::InvalidAlpha(out_of_range_message(d, i)));
                }
                i += 1;
            }
            d += 1;
        }
        proof {
            self.lemma_view();
            assert(self@.shaped());
        }
        let mut i: usize = 0;
        while i < w
            invariant
                self.rep_ok(),
                self@.shaped(),
                n == self.deleted.len(),
                w == self.dimension + 1,
                i <= w,
                forall|x: int, j: int|
                    self@.has_dart(x) && 0 <= j < i ==> self@.al(#[trigger] self@.al(x, j), j) == x
                        && self@.deleted[self@.al(x, j)] == self@.deleted[x],
            decreases w - i,
        {
            let mut d: usize = 0;
            while d < n
                invariant
                    self.rep_ok(),
                    self@.shaped(),
                    n == self.deleted.len(),
                    w == self.dimension + 1,
                    i < w,
                    d <= n,
                    forall|x: int, j: int|
                        self@.has_dart(x) && 0 <= j < i ==> self@.al(#[trigger] self@.al(x, j), j)
                            == x && self@.deleted[self@.al(x, j)] == self@.deleted[x],
                    forall|x: int|
                        0 <= x < d ==> self@.al(#[trigger] self@.al(x, i as int), i as int) == x
                            && self@.deleted[self@.al(x, i as int)] == self@.deleted[x],
                decreases n - d,
            {
                proof {
                    self.lemma_view();
                    assert(self@.has_dart(self@.al(d as int, i as int)));
                }
                let e: usize = self.at(d, i);
                if self.at(e, i) != d || self.deleted[e] != self.deleted[d] {
                    return Err(GMapError::InvalidAlpha(not_involution_message(i)));
                }
                d += 1;
            }
            i += 1;
        }
        proof {
            assert(self@.involutive());
            assert(self@.entombed());
        }
        let mut i: usize = 0;
        while i + 2 < w
            invariant
                i <= w,
                self.rep_ok(),
                self@.sound(),
                n == self.deleted.len(),
                w == self.dimension + 1,
                forall|x: int, a: int, b: int|
                    #![trigger self@.al(self@.al(x, a), b)]
                    #![trigger self@.al(self@.al(x, b), a)]
                    self@.has_dart(x) && 0 <= a < i && a + 2 <= b <= self@.dimension ==> self@.al(
                        self@.al(x, a),
                        b,
                    ) == self@.al(self@.al(x, b), a),
            decreases w - i,
        {
            let mut j: usize = i + 2;
            while j < w
                invariant
                    self.rep_ok(),
                    self@.sound(),
                    n == self.deleted.len(),
                    w == self.dimension + 1,
                    i + 2 <= j <= w,
                    forall|x: int, a: int, b: int|
                        #![trigger self@.al(self@.al(x, a), b)]
                        #![trigger self@.al(self@.al(x, b), a)]
                        self@.has_dart(x) && 0 <= a < i && a + 2 <= b <= self@.dimension
                            ==> self@.al(self@.al(x, a), b) == self@.al(self@.al(x, b), a),
                    forall|x: int, b: int|
                        #![trigger self@.al(self@.al(x, i as int), b)]
                        #![trigger self@.al(self@.al(x, b), i as int)]
                        self@.has_dart(x) && i + 2 <= b < j ==> self@.al(self@.al(x, i as int), b)
                            == self@.al(self@.al(x, b), i as int),
                decreases w - j,
            {
                let mut d: usize = 0;
                while d < n
                    invariant
                        self.rep_ok(),
                        self@.sound(),
                        n == self.deleted.len(),
                        w == self.dimension + 1,
                        i + 2 <= j < w,
                        d <= n,
                        forall|x: int|
                            0 <= x < d ==> self@.al(#[trigger] self@.al(x, i as int), j as int)
                                == self@.al(self@.al(x, j as int), i as int),
                    decreases n - d,
                {
                    proof {
                        assert(self@.has_dart(self@.al(d as int, i as int)));
                        assert(self@.has_dart(self@.al(d as int, j as int)));
                    }
                    let di: usize = self.at(d, i);
                    let dj: usize = self.at(d, j);
                    if self.at(di, j) != self.at(dj, i) {
                        return Err(GMapError::InvalidAlpha(not_commuting_message(i, j)));
                    }
                    d += 1;
                }
                j += 1;
            }
            i += 1;
        }
        proof {
            assert(self@.commuting());
        }
        Ok(())
    }

    pub fn dimension(&self) -> (r: usize)
        requires
            self.rep_ok(),
        ensures
            r == self@.dimension,
            r <= MAX_DIMENSION,
    {
        proof {
            self.lemma_view();
        }
        self.dimension
    }

    /// Number of darts, deleted ones included.
    pub fn ndarts(&self) -> (r: usize)
        requires
            self.rep_ok(),
        ensures
            r == self@.ndarts(),
    {
        proof {
            self.lemma_view();
        }
        self.deleted.len()
    }

    /// The flat table: entry `d * (dimension + 1) + i` is the image of dart
    /// `d` under `alpha_i`.
    pub fn alpha(&self) -> (r: &[Dart])
        requires
            self.rep_ok(),
        ensures
            r@.len() == self@.ndarts() * (self@.dimension + 1),
            forall|d: int, i: int|
                self@.has_dart(d) && self@.has_index(i) ==> 0 <= #[trigger] self@.slot(d, i)
                    < r@.len() && r@[self@.slot(d, i)]@ == self@.al(d, i),
    {
        proof {
            self.lemma_view();
        }
        self.alpha.as_slice()
    }

    /// The image of `d` under `alpha_i`.
    pub fn al1(&self, d: Dart, i: usize) -> (r: Dart)
        requires
            self.rep_ok(),
            self@.has_dart(d@),
            self@.has_index(i as int),
        ensures
            r@ == self@.al(d@, i as int),
    {
        Dart(self.at(d.0, i))
    }

    /// The dart reached from `d` by applying `alpha_i` for each `i` of
    /// `indices`, in order.
    pub fn al(&self, d: Dart, indices: &[usize]) -> (r: Dart)
        requires
            self.rep_ok(),
            self@.shaped(),
            self@.has_dart(d@),
            forall|k: int| 0 <= k < indices@.len() ==> self@.has_index(#[trigger] indices@[k] as int),
        ensures
            r@ == self@.walk(d@, ints(indices@)),
            self@.has_dart(r@),
    {
        let mut cur: usize = d.0;
        let mut k: usize = 0;
        let ghost p = ints(indices@);
        proof {
            assert(p.take(0) =~= Seq::<int>::empty());
        }
        while k < indices.len()
            invariant
                self.rep_ok(),
                self@.shaped(),
                k <= indices@.len(),
                p == ints(indices@),
                self@.has_dart(cur as int),
                cur == self@.walk(d@, p.take(k as int)),
                forall|m: int|
                    0 <= m < indices@.len() ==> self@.has_index(#[trigger] indices@[m] as int),
            decreases indices@.len() - k,
        {
            let i: usize = indices[k];
            proof {
                assert(self@.has_index(indices@[k as int] as int));
                assert(p.take(k as int + 1) =~= p.take(k as int).push(i as int));
                self@.lemma_walk_push(d@, p.take(k as int), i as int);
            }
            cur = self.at(cur, i);
            k += 1;
        }
        proof {
            assert(p.take(k as int) =~= p);
        }
        Dart(cur)
    }

    pub fn is_free(&self, d: Dart, i: usize) -> (r: bool)
        requires
            self.rep_ok(),
            self@.has_dart(d@),
            self@.has_index(i as int),
        ensures
            r == self@.is_free(d@, i as int),
    {
        self.at(d.0, i) == d.0
    }

    pub fn is_deleted(&self, d: Dart) -> (r: bool)
        requires
            self.rep_ok(),
            self@.has_dart(d@),
        ensures
            r == self@.deleted[d@],
            r == !self@.live(d@),
    {
        proof {
            self.lemma_view();
        }
        self.deleted[d.0]
    }

    /// Sets the tombstone of dart `d`.
    pub(crate) fn entomb(&mut self, d: Dart)
        requires
            old(self).rep_ok(),
            old(self)@.has_dart(d@),
        ensures
            final(self).rep_ok(),
            final(self)@.dimension == old(self)@.dimension,
            final(self)@.alpha == old(self)@.alpha,
            final(self)@.deleted == old(self)@.deleted.update(d@, true),
    {
        proof {
            self.lemma_view();
        }
        self.deleted.set(d.0, true);
        proof {
            assert(self@.alpha =~= old(self)@.alpha);
        }
    }

    /// Adds a dart that is free in every dimension.
    pub fn add_dart(&mut self) -> (r: Dart)
        requires
            old(self).wf_links(),
        ensures
            final(self).wf_links(),
            old(self).wf() ==> final(self).wf(),
            r@ == old(self)@.ndarts(),
            final(self)@ == old(self)@.with_dart(),
    {
        proof {
            self.lemma_view();
        }
        let d: usize = self.deleted.len();
        let w: usize = self.dimension + 1;
        let mut i: usize = 0;
        while i < w
            invariant
                i <= w,
                w == self.dimension + 1,
                self.dimension == old(self).dimension,
                self.deleted == old(self).deleted,
                d == self.deleted.len(),
                self.alpha@.len() == old(self).alpha@.len() + i,
                forall|k: int| 0 <= k < old(self).alpha@.len() ==> self.alpha@[k] == old(self).alpha@[k],
                forall|k: int| old(self).alpha@.len() <= k < self.alpha@.len() ==> self.alpha@[k]@ == d,
            decreases w - i,
        {
            self.alpha.push(Dart(d));
            i += 1;
        }
        self.deleted.push(false);
        proof {
            let g = old(self)@.with_dart();
            let new_len = self.alpha.len() as int;
            let new_n = self.deleted.len() as int;
            assert(new_len == new_n * w) by (nonlinear_arith)
                requires
                    new_len == d * w + w,
                    new_n == d + 1,
            ;
            assert(self.rep_ok());
            assert(self@.alpha.len() == g.alpha.len());
            assert forall|x: int| 0 <= x < g.alpha.len() implies #[trigger] self@.alpha[x]
                =~= g.alpha[x] by {
                assert forall|k: int| 0 <= k < w implies self@.alpha[x][k] == g.alpha[x][k] by {
                    lemma_flat_index(d as int + 1, w as int, x, k);
                    if x < d {
                        lemma_flat_index(d as int, w as int, x, k);
                    } else {
                        assert(x * w + k >= d * w) by (nonlinear_arith)
                            requires
                                x >= d,
                                k >= 0,
                                w >= 0,
                        ;
                    }
                }
            }
            assert(self@.alpha =~= g.alpha);
            assert(self@.deleted =~= g.deleted);
            assert(self@ =~= g);
            old(self)@.lemma_with_dart();
        }
        Dart(d)
    }

    /// Makes `d0` and `d1` images of each other under `alpha_i`. Both must be
    /// live and `i`-free.
    pub fn link(&mut self, i: usize, d0: Dart, d1: Dart) -> (r: Result<(), GMapError>)
        requires
            old(self).wf_links(),
            old(self)@.has_index(i as int),
            old(self)@.has_dart(d0@),
            old(self)@.has_dart(d1@),
        ensures
            final(self).wf_links(),
            match r {
                Ok(()) => old(self)@.live(d0@) && old(self)@.live(d1@) && old(self)@.is_free(
                    d0@,
                    i as int,
                ) && old(self)@.is_free(d1@, i as int) && final(self)@ == old(self)@.linked(
                    i as int,
                    d0@,
                    d1@,
                ),
                Err(GMapError::Deleted) => !(old(self)@.live(d0@) && old(self)@.live(d1@))
                    && final(self)@ == old(self)@,
                Err(GMapError::NotFree) => old(self)@.live(d0@) && old(self)@.live(d1@) && !(old(
                    self,
                )@.is_free(d0@, i as int) && old(self)@.is_free(d1@, i as int)) && final(self)@
                    == old(self)@,
                Err(_) => false,
            },
    {
        if self.is_deleted(d0) || self.is_deleted(d1) {
            return Err(GMapError::Deleted);
        }
        if !self.is_free(d0, i) || !self.is_free(d1, i) {
            return Err(GMapError::NotFree);
        }
        proof {
            self@.lemma_linked_sound(i as int, d0@, d1@);
        }
        self.set_at(d0.0, i, d1.0);
        self.set_at(d1.0, i, d0.0);
        Ok(())
    }

    /// Makes `d0` and its image under `alpha_i` both `i`-free, and returns
    /// that image. `d0` must be live and not `i`-free.
    pub fn unlink(&mut self, i: usize, d0: Dart) -> (r: Result<Dart, GMapError>)
        requires
            old(self).wf_links(),
            old(self)@.has_index(i as int),
            old(self)@.has_dart(d0@),
        ensures
            final(self).wf_links(),
            match r {
                Ok(d1) => old(self)@.live(d0@) && !old(self)@.is_free(d0@, i as int) && d1@ == old(
                    self,
                )@.al(d0@, i as int) && final(self)@ == old(self)@.unlinked(i as int, d0@),
                Err(GMapError::Deleted) => !old(self)@.live(d0@) && final(self)@ == old(self)@,
                Err(GMapError::AlreadyFree) => old(self)@.live(d0@) && old(self)@.is_free(
                    d0@,
                    i as int,
                ) && final(self)@ == old(self)@,
                Err(_) => false,
            },
    {
        if self.is_deleted(d0) {
            return Err(GMapError::Deleted);
        }
        let d1: usize = self.at(d0.0, i);
        if d0.0 == d1 {
            return Err(GMapError::AlreadyFree);
        }
        proof {
            self@.lemma_unlinked_sound(i as int, d0@);
        }
        self.set_at(d0.0, i, d0.0);
        self.set_at(d1, i, d1);
        Ok(Dart(d1))
    }

    /// Adds two darts that are images of each other under `alpha_0`, and
    /// returns the first.
    pub fn add_edge(&mut self) -> (r: Dart)
        requires
            old(self).wf(),
        ensures
            final(self).wf(),
            r@ == old(self)@.ndarts(),
            final(self)@ == old(self)@.with_edge(),
    {
        let d0 = self.add_dart();
        let d1 = self.add_dart();
        proof {
            old(self)@.lemma_with_dart();
            old(self)@.with_dart().lemma_with_dart();
            let g = old(self)@.with_dart().with_dart();
            assert(self@ == g);
            assert forall|j: int| g.has_index(j) implies #[trigger] g.al(d0@, j) == d0@ && g.al(
                d1@,
                j,
            ) == d1@ by {
                assert(old(self)@.with_dart().al(d0@, j) == d0@);
            }
            g.lemma_linked_valid(0, d0@, d1@);
        }
        let linked = self.link(0, d0, d1);
        assert(linked is Ok);
        d0
    }
}

} // verus!

verus! {

/// Where entry `i` of row `d` stands in a flat table of rows of width `w`.
spec fn flat(w: int, d: int, i: int) -> int {
    d * w + i
}

impl GMap {
    /// Raises the dimension to `dim`; every dart is free in the new
    /// dimensions. The dimension never decreases.
    pub fn increase_dimension(&mut self, dim: usize) -> (r: Result<(), GMapError>)
        requires
            old(self).wf(),
        ensures
            final(self).wf(),
            match r {
                Ok(()) => old(self)@.dimension <= dim <= MAX_DIMENSION && final(self)@ == old(
                    self,
                )@.raised(dim as int),
                Err(GMapError::CannotDecreaseDimension) => dim < old(self)@.dimension && final(self)@
                    == old(self)@,
                Err(GMapError::DimensionTooLarge) => old(self)@.dimension <= dim && dim
                    > MAX_DIMENSION && final(self)@ == old(self)@,
                Err(_) => false,
            },
    {
        proof {
            self.lemma_view();
        }
        if dim < self.dimension {
            return Err(GMapError::CannotDecreaseDimension);
        }
        if dim > MAX_DIMENSION {
            return Err(GMapError::DimensionTooLarge);
        }
        let n: usize = self.deleted.len();
        let w: usize = dim + 1;
        let ghost target = self@.raised(dim as int);
        let mut table: Vec<Dart> = Vec::new();
        let mut d: usize = 0;
        while d < n
            invariant
                self.wf(),
                self.dimension <= dim <= MAX_DIMENSION,
                n == self.deleted.len(),
                w == dim + 1,
                d <= n,
                target == self@.raised(dim as int),
                table@.len() == flat(w as int, d as int, 0),
                forall|x: int, k: int|
                    0 <= x < d && 0 <= k < w ==> 0 <= #[trigger] flat(w as int, x, k) < table@.len()
                        && table@[flat(w as int, x, k)]@ == target.alpha[x][k],
            decreases n - d,
        {
            let mut i: usize = 0;
            while i < w
                invariant
                    self.wf(),
                    self.dimension <= dim <= MAX_DIMENSION,
                    n == self.deleted.len(),
                    w == dim + 1,
                    d < n,
                    i <= w,
                    target == self@.raised(dim as int),
                    table@.len() == flat(w as int, d as int, i as int),
                    forall|x: int, k: int|
                        0 <= x < d && 0 <= k < w ==> 0 <= #[trigger] flat(w as int, x, k)
                            < table@.len() && table@[flat(w as int, x, k)]@ == target.alpha[x][k],
                    forall|k: int|
                        0 <= k < i ==> 0 <= #[trigger] flat(w as int, d as int, k) < table@.len()
                            && table@[flat(w as int, d as int, k)]@ == target.alpha[d as int][k],
                decreases w - i,
            {
                proof {
                    self.lemma_view();
                }
                let e: usize = if i <= self.dimension {
                    self.at(d, i)
                } else {
                    d
                };
                let ghost before = table@;
                table.push(Dart(e));
                proof {
                    assert forall|x: int, k: int| 0 <= x < d && 0 <= k < w implies 0 <= #[trigger] flat(
                        w as int,
                        x,
                        k,
                    ) < table@.len() && table@[flat(w as int, x, k)]@ == target.alpha[x][k] by {
                        assert(flat(w as int, x, k) < before.len());
                    }
                }
                i += 1;
            }
            proof {
                assert(flat(w as int, d as int, w as int) == flat(w as int, d as int + 1, 0))
                    by (nonlinear_arith);
            }
            d += 1;
        }
        proof {
            self@.lemma_raised_valid(dim as int);
            assert(table@.len() == n * w);
        }
        self.alpha = table;
        self.dimension = dim;
        proof {
            assert(self.rep_ok());
            assert(self@.alpha.len() == target.alpha.len());
            assert forall|x: int| 0 <= x < target.alpha.len() implies #[trigger] self@.alpha[x]
                =~= target.alpha[x] by {
                assert forall|k: int| 0 <= k < w implies self@.alpha[x][k] == target.alpha[x][k] by {
                    assert(0 <= flat(w as int, x, k) < table@.len());
                }
            }
            assert(self@.alpha =~= target.alpha);
            assert(self@ =~= target);
        }
        Ok(())
    }

    /// Adds a cycle of `2 n` darts: `n` pairs joined by `alpha_i`, each pair
    /// joined to the next, and the last to the first, by `alpha_j`. Returns
    /// the first dart, the lowest of the cycle.
    pub fn add_cycle(&mut self, i: usize, j: usize, n: usize) -> (r: Dart)
        requires
            old(self).wf(),
            old(self)@.has_index(i as int),
            old(self)@.has_index(j as int),
            i + 1 == j || j + 1 == i,
            n >= 1,
        ensures
            final(self).wf(),
            r@ == old(self)@.ndarts(),
            final(self)@ == old(self)@.with_cycle(i as int, j as int, n as int),
    {
        let ghost g0 = self@;
        let start = self.add_dart();
        let second = self.add_dart();
        proof {
            g0.lemma_with_dart();
            g0.with_dart().lemma_with_dart();
            g0.lemma_chain_start(i as int, j as int);
            assert(self@.al(start@, i as int) == start@);
            assert(self@.al(second@, i as int) == second@) by {
                assert(g0.with_dart().with_dart().al(g0.with_dart().ndarts(), i as int)
                    == g0.with_dart().ndarts());
            }
        }
        let first_link = self.link(i, start, second);
        assert(first_link is Ok);
        let mut prev = second;
        let mut m: usize = 1;
        while m < n
            invariant
                1 <= m <= n,
                g0.valid(),
                g0.has_index(i as int),
                g0.has_index(j as int),
                i + 1 == j || j + 1 == i,
                self.rep_ok(),
                self@ == g0.with_chain(i as int, j as int, m as int, false),
                start@ == g0.ndarts(),
                prev@ == g0.ndarts() + 2 * m - 1,
                g0.ndarts() + 2 * m <= usize::MAX,
            decreases n - m,
        {
            proof {
                g0.lemma_with_chain_valid(i as int, j as int, m as int, false);
            }
            let ghost c = self@;
            let a = self.add_dart();
            let b = self.add_dart();
            proof {
                c.lemma_with_dart();
                c.with_dart().lemma_with_dart();
                let cc = c.with_dart().with_dart();
                assert(cc.al(a@, i as int) == a@) by {
                    assert(c.with_dart().al(a@, i as int) == a@);
                }
                assert(cc.al(b@, i as int) == b@);
                assert(cc.al(a@, j as int) == a@) by {
                    assert(c.with_dart().al(a@, j as int) == a@);
                }
                assert(cc.al(prev@, j as int) == prev@) by {
                    assert(c.al(prev@, j as int) == chain_image(
                        g0.ndarts(),
                        m as int,
                        i as int,
                        j as int,
                        false,
                        2 * m - 1,
                        j as int,
                    ));
                    assert(c.with_dart().al(prev@, j as int) == c.al(prev@, j as int));
                }
                cc.lemma_linked_sound(i as int, a@, b@);
                g0.lemma_chain_extend(i as int, j as int, m as int);
            }
            let pair = self.link(i, a, b);
            assert(pair is Ok);
            let join = self.link(j, prev, a);
            assert(join is Ok);
            prev = b;
            m += 1;
        }
        proof {
            g0.lemma_with_chain_valid(i as int, j as int, n as int, false);
            g0.lemma_with_chain_valid(i as int, j as int, n as int, true);
            g0.lemma_chain_close(i as int, j as int, n as int);
            let c = self@;
            assert(c.al(start@, j as int) == chain_image(
                g0.ndarts(),
                n as int,
                i as int,
                j as int,
                false,
                0,
                j as int,
            ));
            assert(c.al(prev@, j as int) == chain_image(
                g0.ndarts(),
                n as int,
                i as int,
                j as int,
                false,
                2 * n - 1,
                j as int,
            ));
        }
        let close = self.link(j, start, prev);
        assert(close is Ok);
        start
    }

    /// Adds an `n`-gon: a cycle of `2 n` darts joined alternately by
    /// `alpha_1` and `alpha_0`. Darts `2 k` and `2 k + 1` of the polygon are
    /// the two sides of its corner `k`, and the lower of them points
    /// counter-clockwise. Returns the lowest dart of the polygon.
    pub fn add_polygon(&mut self, n: usize) -> (r: Dart)
        requires
            old(self).wf(),
            old(self)@.dimension >= 1,
            n >= 1,
        ensures
            final(self).wf(),
            r@ == old(self)@.ndarts(),
            final(self)@ == old(self)@.with_cycle(1, 0, n as int),
    {
        self.add_cycle(1, 0, n)
    }
}

} // verus!
