//! Plain forms of a map and of a mask, for exchange: a map as its dimension
//! with the row of every live dart, a mask as the list of its indices.

use crate::dart::{Dart, GMapError};
use crate::model::GMapView;
use itertools::Itertools;
use std::collections::HashMap;
use vstd::prelude::*;

verus! {

broadcast use vstd::std_specs::hash::group_hash_axioms;

/// `Itertools::chunks`: the entries of `table` in runs of `size`, in order;
/// the last run holds what is left, when that is less.
#[verifier::external_body]
fn chunked(table: &[Dart], size: usize) -> (r: Vec<Vec<Dart>>)
    requires
        size >= 1,
    ensures
        r@.len() == (table@.len() + size - 1) / (size as int),
        forall|i: int|
            0 <= i < r@.len() ==> (#[trigger] r@[i])@ == table@.subrange(
                i * size,
                if (i + 1) * size <= table@.len() {
                    (i + 1) * size
                } else {
                    table@.len() as int
                },
            ),
{
    table.iter().copied().chunks(size).into_iter().map(|c| c.collect()).collect()
}

/// A map in plain form: the row of every live dart, by the number of the
/// dart.
pub struct GMap {
    pub dimension: usize,
    pub alpha: HashMap<usize, Vec<Dart>>,
}

/// A mask in plain form: the indices it holds, in increasing order.
pub struct Alphas(pub Vec<usize>);

proof fn lemma_rows(n: int, w: int)
    by (nonlinear_arith)
    requires
        0 <= n,
        1 <= w,
    ensures
        (n * w + w - 1) / w == n,
{
}

proof fn lemma_row_entry(i: int, w: int, k: int)
    by (nonlinear_arith)
    requires
        0 <= i,
        0 <= k < w,
    ensures
        i * w + k < (i + 1) * w,
        (i + 1) * w - i * w == w,
        0 <= i * w,
{
}

proof fn lemma_row_within(i: int, n: int, w: int)
    by (nonlinear_arith)
    requires
        0 <= i < n,
        1 <= w,
    ensures
        (i + 1) * w <= n * w,
{
}

/// The place of entry `k` of row `d` in a flat table of rows of `w` entries.
pub open spec fn place_of(d: int, w: int, k: int) -> int {
    d * w + k
}

impl GMap {
    /// The plain form of a map: its dimension, and for every live dart the
    /// darts that the involutions take it to.
    pub fn from(g: &crate::gmap::GMap) -> (r: GMap)
        requires
            g.wf_links(),
        ensures
            r.dimension == g@.dimension,
            forall|d: usize| #[trigger] r.alpha@.contains_key(d) <==> g@.live(d as int),
            forall|d: usize| #[trigger]
                r.alpha@.contains_key(d) ==> r.alpha@[d]@.len() == g@.dimension + 1,
            forall|d: usize, k: int|
                r.alpha@.contains_key(d) && 0 <= k <= g@.dimension ==> (
                #[trigger] r.alpha@[d]@[k])@ == g@.al(d as int, k),
    {
        let w: usize = g.dimension() + 1;
        let n: usize = g.ndarts();
        let table = g.alpha();
        proof {
            lemma_rows(n as int, w as int);
        }
        let rows = chunked(table, w);
        let mut alpha: HashMap<usize, Vec<Dart>> = HashMap::new();
        let mut i: usize = 0;
        proof {
            assert forall|d: int| 0 <= d < n implies (#[trigger] rows@[d])@.len() == w by {
                lemma_row_within(d, n as int, w as int);
                lemma_row_entry(d, w as int, 0);
            }
            assert forall|d: int, k: int| 0 <= d < n && 0 <= k < w implies (
            #[trigger] rows@[d]@[k])@ == g@.al(d, k) by {
                lemma_row_within(d, n as int, w as int);
                lemma_row_entry(d, w as int, k);
                assert(g@.slot(d, k) == d * w + k);
                assert(table@[g@.slot(d, k)]@ == g@.al(d, k));
            }
        }
        while i < n
            invariant
                g.wf_links(),
                n == g@.ndarts(),
                w == g@.dimension + 1,
                i <= n,
                rows@.len() == n,
                forall|d: int| 0 <= d < n ==> (#[trigger] rows@[d])@.len() == w,
                forall|d: int, k: int|
                    0 <= d < n && 0 <= k < w ==> (#[trigger] rows@[d]@[k])@ == g@.al(d, k),
                forall|d: usize| #[trigger]
                    alpha@.contains_key(d) <==> d < i && g@.live(d as int),
                forall|d: usize| #[trigger] alpha@.contains_key(d) ==> alpha@[d]@.len() == w,
                forall|d: usize, k: int|
                    alpha@.contains_key(d) && 0 <= k < w ==> (#[trigger] alpha@[d]@[k])@ == g@.al(
                        d as int,
                        k,
                    ),
            decreases n - i,
        {
            if !g.is_deleted(Dart(i)) {
                let mut row: Vec<Dart> = Vec::new();
                let mut k: usize = 0;
                while k < w
                    invariant
                        i < n,
                        rows@.len() == n,
                        rows@[i as int]@.len() == w,
                        k <= w,
                        row@ == rows@[i as int]@.take(k as int),
                    decreases w - k,
                {
                    row.push(rows[i][k]);
                    proof {
                        assert(rows@[i as int]@.take(k as int).push(rows@[i as int]@[k as int])
                            =~= rows@[i as int]@.take(k + 1));
                    }
                    k += 1;
                }
                proof {
                    assert(rows@[i as int]@.take(w as int) =~= rows@[i as int]@);
                    assert forall|k: int| 0 <= k < w implies (#[trigger] row@[k])@ == g@.al(
                        i as int,
                        k,
                    ) by {
                        assert(rows@[i as int]@[k]@ == g@.al(i as int, k));
                    }
                }
                alpha.insert(i, row);
            }
            i += 1;
        }
        GMap { dimension: g.dimension(), alpha }
    }

    /// The darts of the plain form are `0 .. n`, and each has a whole row.
    pub open spec fn whole(&self) -> bool {
        &&& forall|d: usize| d < self.alpha@.len() ==> #[trigger] self.alpha@.contains_key(d)
        &&& forall|d: usize|
            d < self.alpha@.len() ==> (#[trigger] self.alpha@[d])@.len() == self.dimension + 1
    }

    /// The map that a whole plain form describes: every dart live, with the
    /// images that its row gives.
    pub open spec fn described(&self) -> GMapView {
        GMapView {
            dimension: self.dimension as int,
            alpha: Seq::new(
                self.alpha@.len(),
                |d: int|
                    Seq::new((self.dimension + 1) as nat, |k: int| self.alpha@[d as usize]@[k]@),
            ),
            deleted: Seq::new(self.alpha@.len(), |d: int| false),
        }
    }

    /// The map of a plain form whose darts are `0 .. n`, each with a whole
    /// row, and whose table is valid.
    pub fn try_into(self) -> (r: Result<crate::gmap::GMap, GMapError>)
        ensures
            match r {
                Ok(g) => {
                    &&& self.dimension <= crate::dart::MAX_DIMENSION
                    &&& self.whole()
                    &&& self.described().valid()
                    &&& g.wf()
                    &&& g@ == self.described()
                },
                Err(GMapError::DimensionTooLarge) => self.dimension > crate::dart::MAX_DIMENSION,
                Err(GMapError::InvalidAlpha(_)) => self.dimension <= crate::dart::MAX_DIMENSION && !(
                self.whole() && self.described().valid()),
                Err(_) => false,
            },
    {
        if self.dimension > crate::dart::MAX_DIMENSION {
            return Err(GMapError::DimensionTooLarge);
        }
        let n: usize = self.alpha.len();
        let w: usize = self.dimension + 1;
        let mut table: Vec<Dart> = Vec::new();
        let mut d: usize = 0;
        while d < n
            invariant
                d <= n,
                self.dimension <= crate::dart::MAX_DIMENSION,
                w == self.dimension + 1,
                table@.len() == d * w,
                n == self.alpha@.len(),
                forall|e: usize| e < d ==> #[trigger] self.alpha@.contains_key(e),
                forall|e: usize| e < d ==> (#[trigger] self.alpha@[e])@.len() == w,
                forall|e: int, k: int|
                    0 <= e < d && 0 <= k < w ==> table@[#[trigger] place_of(e, w as int, k)]
                        == self.alpha@[e as usize]@[k],
            decreases n - d,
        {
            match self.alpha.get(&d) {
                None => {
                    proof {
                        assert(!self.alpha@.contains_key(d));
                    }
                    return Err(GMapError::InvalidAlpha(missing_row_message(d)));
                },
                Some(row) => {
                    if row.len() != w {
                        proof {
                            assert(self.alpha@.contains_key(d) && self.alpha@[d]@.len() != w);
                        }
                        return Err(GMapError::InvalidAlpha(short_row_message(d)));
                    }
                    let mut k: usize = 0;
                    while k < w
                        invariant
                            k <= w,
                            d < n,
                            n == self.alpha@.len(),
                            self.dimension <= crate::dart::MAX_DIMENSION,
                            self.alpha@.contains_key(d),
                            forall|e: usize| e < d ==> #[trigger] self.alpha@.contains_key(e),
                            forall|e: usize| e < d ==> (#[trigger] self.alpha@[e])@.len() == w,
                            row@.len() == w,
                            row@ == self.alpha@[d]@,
                            table@.len() == d * w + k,
                            forall|e: int, j: int|
                                0 <= e < d && 0 <= j < w ==> table@[#[trigger] place_of(
                                    e,
                                    w as int,
                                    j,
                                )] == self.alpha@[e as usize]@[j],
                            forall|j: int|
                                0 <= j < k ==> table@[#[trigger] place_of(d as int, w as int, j)]
                                    == row@[j],
                        decreases w - k,
                    {
                        proof {
                            assert forall|e: int, j: int| 0 <= e < d && 0 <= j < w implies 0
                                <= #[trigger] place_of(e, w as int, j) < d * w by {
                                lemma_row_entry(e, w as int, j);
                                lemma_row_within(e, d as int, w as int);
                            }
                        }
                        table.push(row[k]);
                        k += 1;
                    }
                    proof {
                        assert(self.alpha@.contains_key(d) && self.alpha@[d]@.len() == w);
                        assert((d + 1) * w == d * w + w) by (nonlinear_arith);
                        assert forall|e: int, j: int| 0 <= e < d + 1 && 0 <= j < w implies table@[#[trigger] place_of(
                            e,
                            w as int,
                            j,
                        )] == self.alpha@[e as usize]@[j] by {
                            if e == d {
                                assert(table@[place_of(d as int, w as int, j)] == row@[j]);
                            }
                        }
                    }
                },
            }
            d += 1;
        }
        let ghost flat = crate::gmap::dart_ints(table@);
        proof {
            assert(flat.len() == n * w);
            assert((n * w) / (w as int) == n && (n * w) % (w as int) == 0) by (nonlinear_arith)
                requires
                    w >= 1,
                    n >= 0,
            ;
            let read = GMapView::from_table(self.dimension as int, flat);
            let told = self.described();
            assert forall|e: int| 0 <= e < n implies #[trigger] read.alpha[e] =~= told.alpha[e] by {
                assert(self.alpha@.contains_key(e as usize));
                assert forall|k: int| 0 <= k < w implies read.alpha[e][k] == told.alpha[e][k] by {
                    lemma_row_entry(e, w as int, k);
                    lemma_row_within(e, n as int, w as int);
                    assert(table@[place_of(e, w as int, k)] == self.alpha@[e as usize]@[k]);
                    assert(flat[e * w + k] == table@[e * w + k]@);
                }
            }
            assert(read.alpha =~= told.alpha);
            assert(read.deleted =~= told.deleted);
            assert(read == told);
            assert(self.whole());
        }
        match crate::gmap::GMap::from_alpha(self.dimension, table) {
            Ok(g) => Ok(g),
            Err(e) => match e {
                GMapError::InvalidAlpha(m) => Err(GMapError::InvalidAlpha(m)),
                _ => Err(GMapError::InvalidAlpha(missing_row_message(n))),
            },
        }
    }
}

/// `format!`, for a dart without a row.
#[verifier::external_body]
fn missing_row_message(d: usize) -> String {
    format!("dart {} has no row in alpha", d)
}

/// `format!`, for a row that is not whole.
#[verifier::external_body]
fn short_row_message(d: usize) -> String {
    format!("dart {} has a row of the wrong length", d)
}

impl Alphas {
    /// The indices of a mask, in increasing order.
    pub fn from(a: crate::dart::Alphas) -> (r: Alphas)
        ensures
            forall|i: int| 0 <= i < 32 ==> (a.contains(i) <==> exists|k: int|
                0 <= k < r.0@.len() && #[trigger] r.0@[k] == i),
            forall|k: int| 0 <= k < r.0@.len() ==> #[trigger] r.0@[k] < 32,
            forall|k1: int, k2: int| 0 <= k1 < k2 < r.0@.len() ==> r.0@[k1] < r.0@[k2],
    {
        let mut out: Vec<usize> = Vec::new();
        let mut i: usize = 0;
        while i < 32
            invariant
                i <= 32,
                forall|j: int| 0 <= j < i ==> (a.contains(j) <==> exists|k: int|
                    0 <= k < out@.len() && #[trigger] out@[k] == j),
                forall|k: int| 0 <= k < out@.len() ==> #[trigger] out@[k] < i,
                forall|k1: int, k2: int| 0 <= k1 < k2 < out@.len() ==> out@[k1] < out@[k2],
            decreases 32 - i,
        {
            let ghost before = out@;
            if a.has(i) {
                out.push(i);
            }
            proof {
                assert forall|j: int| 0 <= j < i + 1 implies (a.contains(j) <==> exists|k: int|
                    0 <= k < out@.len() && #[trigger] out@[k] == j) by {
                    if j < i {
                        if a.contains(j) {
                            let k = choose|k: int| 0 <= k < before.len() && #[trigger] before[k] == j;
                            assert(out@[k] == j);
                        }
                        if exists|k: int| 0 <= k < out@.len() && #[trigger] out@[k] == j {
                            let k = choose|k: int| 0 <= k < out@.len() && #[trigger] out@[k] == j;
                            assert(before[k] == j);
                        }
                    } else {
                        if a.contains(j) {
                            assert(out@[out@.len() - 1] == j);
                        }
                        if exists|k: int| 0 <= k < out@.len() && #[trigger] out@[k] == j {
                            let k = choose|k: int| 0 <= k < out@.len() && #[trigger] out@[k] == j;
                            if k < before.len() {
                                assert(before[k] < i);
                            }
                        }
                    }
                }
            }
            i += 1;
        }
        let r = Alphas(out);
        proof {
            assert(r.0@ == out@);
            assert forall|j: int| 0 <= j < 32 implies (a.contains(j) <==> exists|k: int|
                0 <= k < r.0@.len() && #[trigger] r.0@[k] == j) by {
                if a.contains(j) {
                    let k = choose|k: int| 0 <= k < out@.len() && #[trigger] out@[k] == j;
                    assert(r.0@[k] == j);
                }
            }
        }
        r
    }

    /// The mask of the indices of the list that are less than 32.
    pub fn into(self) -> (r: crate::dart::Alphas)
        ensures
            forall|i: int| 0 <= i < 32 ==> (r.contains(i) <==> exists|k: int|
                0 <= k < self.0@.len() && #[trigger] self.0@[k] == i),
    {
        let mut bits: u32 = 0;
        let mut k: usize = 0;
        proof {
            assert forall|i: int| 0 <= i < 32 implies !crate::dart::Alphas(0u32).contains(i) by {
                let t: u32 = i as u32;
                assert((0u32 >> t) & 1 == 0) by (bit_vector);
            }
        }
        while k < self.0.len()
            invariant
                k <= self.0@.len(),
                forall|i: int| 0 <= i < 32 ==> (crate::dart::Alphas(bits).contains(i) <==> exists|
                    j: int,
                | 0 <= j < k && #[trigger] self.0@[j] == i),
            decreases self.0@.len() - k,
        {
            let x: usize = self.0[k];
            let ghost old_bits = bits;
            if x < 32 {
                let s: u32 = x as u32;
                bits = bits | (1u32 << s);
                proof {
                    assert forall|i: int| 0 <= i < 32 implies (crate::dart::Alphas(bits).contains(i)
                        <==> (crate::dart::Alphas(old_bits).contains(i) || i == x)) by {
                        let t: u32 = i as u32;
                        assert((((old_bits | (1u32 << s)) >> t) & 1 == 1) <==> (((old_bits >> t) & 1
                            == 1) || t == s)) by (bit_vector)
                            requires
                                s < 32,
                                t < 32,
                        ;
                    }
                }
            }
            proof {
                assert forall|i: int| 0 <= i < 32 implies (crate::dart::Alphas(bits).contains(i)
                    <==> exists|j: int| 0 <= j < k + 1 && #[trigger] self.0@[j] == i) by {
                    if crate::dart::Alphas(old_bits).contains(i) {
                        let j = choose|j: int| 0 <= j < k && #[trigger] self.0@[j] == i;
                        assert(0 <= j < k + 1 && self.0@[j] == i);
                    }
                    if exists|j: int| 0 <= j < k + 1 && #[trigger] self.0@[j] == i {
                        let j = choose|j: int| 0 <= j < k + 1 && #[trigger] self.0@[j] == i;
                        if j < k {
                            assert(crate::dart::Alphas(old_bits).contains(i));
                        }
                    }
                    if i == x {
                        assert(self.0@[k as int] == i);
                    }
                }
            }
            k += 1;
        }
        crate::dart::Alphas(bits)
    }
}

} // verus!
