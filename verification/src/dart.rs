//! Darts, involution masks and the errors of G-map operations.

use vstd::prelude::*;

verus! {

/// Largest dimension a G-map may have. Masks are 32-bit sets of involution
/// indices, so index 31 is the last one that can be selected.
pub const MAX_DIMENSION: usize = 31;

/// An index into the dense dart array of a G-map.
#[derive(Debug, Clone, Copy, PartialEq, Eq, Hash, PartialOrd, Ord, Structural)]
pub struct Dart(pub usize);

/// Why a G-map operation was refused.
#[derive(Debug)]
pub enum GMapError {
    /// The raw involution table breaks a size, range, involution or
    /// commutation rule; the text says which.
    InvalidAlpha(String),
    CannotDecreaseDimension,
    Unsewable,
    Ununsewable,
    NotFree,
    AlreadyFree,
    DimensionTooLarge,
    Deleted,
}

/// A set of involution indices: bit `i` is set when `alpha_i` is a generator.
#[derive(Debug, Clone, Copy, PartialEq, Eq, Hash, Structural)]
pub struct Alphas(pub u32);

impl Alphas {
    /// Every involution but `alpha_0`: the darts around a vertex.
    #[verifier::allow_in_spec]
    pub fn vertex() -> Alphas
        returns
            Alphas(0xFFFF_FFFEu32),
    {
        Alphas(0xFFFF_FFFE)
    }

    /// Every involution but `alpha_1`: the darts of an edge.
    #[verifier::allow_in_spec]
    pub fn edge() -> Alphas
        returns
            Alphas(0xFFFF_FFFDu32),
    {
        Alphas(0xFFFF_FFFD)
    }

    /// Every involution but `alpha_0` and `alpha_1`.
    #[verifier::allow_in_spec]
    pub fn half_edge() -> Alphas
        returns
            Alphas(0xFFFF_FFFCu32),
    {
        Alphas(0xFFFF_FFFC)
    }

    /// Every involution but `alpha_2`: the darts of a face.
    #[verifier::allow_in_spec]
    pub fn face() -> Alphas
        returns
            Alphas(0xFFFF_FFFBu32),
    {
        Alphas(0xFFFF_FFFB)
    }

    /// Every involution but `alpha_0` and `alpha_2`: a corner of a face.
    #[verifier::allow_in_spec]
    pub fn angle() -> Alphas
        returns
            Alphas(0xFFFF_FFFAu32),
    {
        Alphas(0xFFFF_FFFA)
    }

    /// Every involution but `alpha_1` and `alpha_2`: one side of an edge.
    #[verifier::allow_in_spec]
    pub fn side() -> Alphas
        returns
            Alphas(0xFFFF_FFF9u32),
    {
        Alphas(0xFFFF_FFF9)
    }

    /// No involution: the orbit of a dart is the dart alone.
    #[verifier::allow_in_spec]
    pub fn dart() -> Alphas
        returns
            Alphas(0u32),
    {
        Alphas(0)
    }

    /// Every involution: a connected component.
    #[verifier::allow_in_spec]
    pub fn all() -> Alphas
        returns
            Alphas(0xFFFF_FFFFu32),
    {
        Alphas(0xFFFF_FFFF)
    }

    /// Whether index `i` belongs to the mask.
    pub open spec fn contains(self, i: int) -> bool {
        0 <= i < 32 && (self.0 >> (i as u32)) & 1 == 1
    }

    /// The mask of an `i`-cell: every index but `i`.
    pub open spec fn spec_cell(i: int) -> Alphas {
        Alphas(!(1u32 << (i as u32)))
    }

    /// The mask `sew` and `unsew` walk for index `i`: every index at distance
    /// two or more from `i`.
    pub open spec fn spec_apart(i: int) -> Alphas {
        let b = 1u32 << (i as u32);
        Alphas(!b & !(b >> 1u32) & !(b << 1u32))
    }

    pub fn cell(i: usize) -> (r: Alphas)
        requires
            i < 32,
        ensures
            r == Alphas::spec_cell(i as int),
            forall|j: int| 0 <= j < 32 ==> (r.contains(j) <==> j != i),
    {
        let s: u32 = i as u32;
        proof {
            Self::lemma_cell(i as int);
        }
        Alphas(!(1u32 << s))
    }

    pub fn has(self, i: usize) -> (r: bool)
        requires
            i < 32,
        ensures
            r == self.contains(i as int),
    {
        let s: u32 = i as u32;
        (self.0 >> s) & 1 == 1
    }

    /// The mask of every index at distance two or more from `i`.
    pub fn apart(i: usize) -> (r: Alphas)
        requires
            i < 32,
        ensures
            r == Alphas::spec_apart(i as int),
            forall|j: int| 0 <= j < 32 ==> (r.contains(j) <==> (j + 1 < i || i + 1 < j)),
    {
        let s: u32 = i as u32;
        let b: u32 = 1u32 << s;
        proof {
            Self::lemma_apart(i as int);
        }
        Alphas(!b & !(b >> 1u32) & !(b << 1u32))
    }

    /// The cell mask of `i` holds exactly the indices other than `i`.
    pub proof fn lemma_cell(i: int)
        requires
            0 <= i < 32,
        ensures
            forall|j: int| 0 <= j < 32 ==> (#[trigger] Alphas::spec_cell(i).contains(j) <==> j != i),
    {
        let s: u32 = i as u32;
        assert forall|j: int| 0 <= j < 32 implies (#[trigger] Alphas::spec_cell(i).contains(j) <==> j
            != i) by {
            let t: u32 = j as u32;
            assert(((!(1u32 << s)) >> t) & 1 == 1 <==> t != s) by (bit_vector)
                requires
                    s < 32,
                    t < 32,
            ;
        }
    }

    /// The `apart` mask of `i` holds exactly the indices `j` with `|i - j| >= 2`.
    pub proof fn lemma_apart(i: int)
        requires
            0 <= i < 32,
        ensures
            forall|j: int|
                0 <= j < 32 ==> (#[trigger] Alphas::spec_apart(i).contains(j) <==> (j + 1 < i || i
                    + 1 < j)),
    {
        let s: u32 = i as u32;
        assert forall|j: int| 0 <= j < 32 implies (#[trigger] Alphas::spec_apart(i).contains(j) <==> (
        j + 1 < i || i + 1 < j)) by {
            let t: u32 = j as u32;
            assert(((!(1u32 << s) & !((1u32 << s) >> 1u32) & !((1u32 << s) << 1u32)) >> t) & 1 == 1
                <==> (t + 1 < s || s + 1 < t)) by (bit_vector)
                requires
                    s < 32,
                    t < 32,
            ;
        }
    }

    /// What the named masks select among the indices of a map.
    pub proof fn lemma_named_masks()
        ensures
            forall|j: int| 0 <= j < 32 ==> (#[trigger] Alphas::vertex().contains(j) <==> j != 0),
            forall|j: int| 0 <= j < 32 ==> (#[trigger] Alphas::edge().contains(j) <==> j != 1),
            forall|j: int| 0 <= j < 32 ==> (#[trigger] Alphas::face().contains(j) <==> j != 2),
            forall|j: int| 0 <= j < 32 ==> (#[trigger] Alphas::half_edge().contains(j) <==> j >= 2),
            forall|j: int|
                0 <= j < 32 ==> (#[trigger] Alphas::angle().contains(j) <==> (j != 0 && j != 2)),
            forall|j: int| 0 <= j < 32 ==> (#[trigger] Alphas::side().contains(j) <==> (j == 0 || j >= 3)),
            forall|j: int| !(#[trigger] Alphas::dart().contains(j)),
            forall|j: int| 0 <= j < 32 ==> #[trigger] Alphas::all().contains(j),
    {
        assert forall|j: int| 0 <= j < 32 implies (#[trigger] Alphas::vertex().contains(j) <==> j != 0) by {
            let t: u32 = j as u32;
            assert((0xFFFF_FFFEu32 >> t) & 1 == 1 <==> t != 0) by (bit_vector)
                requires
                    t < 32,
            ;
        }
        assert forall|j: int| 0 <= j < 32 implies (#[trigger] Alphas::edge().contains(j) <==> j != 1) by {
            let t: u32 = j as u32;
            assert((0xFFFF_FFFDu32 >> t) & 1 == 1 <==> t != 1) by (bit_vector)
                requires
                    t < 32,
            ;
        }
        assert forall|j: int| 0 <= j < 32 implies (#[trigger] Alphas::face().contains(j) <==> j != 2) by {
            let t: u32 = j as u32;
            assert((0xFFFF_FFFBu32 >> t) & 1 == 1 <==> t != 2) by (bit_vector)
                requires
                    t < 32,
            ;
        }
        assert forall|j: int| 0 <= j < 32 implies (#[trigger] Alphas::half_edge().contains(j) <==> j
            >= 2) by {
            let t: u32 = j as u32;
            assert((0xFFFF_FFFCu32 >> t) & 1 == 1 <==> t >= 2) by (bit_vector)
                requires
                    t < 32,
            ;
        }
        assert forall|j: int| 0 <= j < 32 implies (#[trigger] Alphas::angle().contains(j) <==> (j != 0
            && j != 2)) by {
            let t: u32 = j as u32;
            assert((0xFFFF_FFFAu32 >> t) & 1 == 1 <==> (t != 0 && t != 2)) by (bit_vector)
                requires
                    t < 32,
            ;
        }
        assert forall|j: int| 0 <= j < 32 implies (#[trigger] Alphas::side().contains(j) <==> (j == 0
            || j >= 3)) by {
            let t: u32 = j as u32;
            assert((0xFFFF_FFF9u32 >> t) & 1 == 1 <==> (t == 0 || t >= 3)) by (bit_vector)
                requires
                    t < 32,
            ;
        }
        assert forall|j: int| !(#[trigger] Alphas::dart().contains(j)) by {
            if 0 <= j < 32 {
                let t: u32 = j as u32;
                assert((0u32 >> t) & 1 == 0) by (bit_vector)
                    requires
                        t < 32,
                ;
            }
        }
        assert forall|j: int| 0 <= j < 32 implies #[trigger] Alphas::all().contains(j) by {
            let t: u32 = j as u32;
            assert((0xFFFF_FFFFu32 >> t) & 1 == 1) by (bit_vector)
                requires
                    t < 32,
            ;
        }
    }

    /// The masks of the cells of dimension 0, 1 and 2 are the named ones.
    pub proof fn lemma_named_cells()
        ensures
            Alphas::spec_cell(0) == Alphas::vertex(),
            Alphas::spec_cell(1) == Alphas::edge(),
            Alphas::spec_cell(2) == Alphas::face(),
    {
        assert(!(1u32 << 0u32) == 0xFFFF_FFFEu32) by (bit_vector);
        assert(!(1u32 << 1u32) == 0xFFFF_FFFDu32) by (bit_vector);
        assert(!(1u32 << 2u32) == 0xFFFF_FFFBu32) by (bit_vector);
    }
}

} // verus!
