//! Crease patterns to try the clauses on: single polygons and square grids,
//! each wrapped in its exterior face.

use crate::dart::{Alphas, Dart, GMapError};
use crate::finite::iterate;
use crate::gmap::GMap;
use crate::graph::{all_measured, measured, oriented, Angle, Error, Length, Problem};
use crate::grids::square;
use crate::listing::listed;
use crate::model::GMapView;
use crate::orbit::dart_seq;
use crate::orbit_map::OrbitReprs;
use std::collections::HashMap;
use vstd::prelude::*;

verus! {

broadcast use vstd::std_specs::hash::group_hash_axioms;

/// The first dart of `xs` from place `k` on that is not `d` and is free in
/// dimension 2.
pub open spec fn first_free(g: GMapView, xs: Seq<int>, d: int, k: int) -> Option<int>
    decreases xs.len() - k,
{
    if k < 0 || k >= xs.len() {
        None
    } else if xs[k] != d && g.is_free(xs[k], 2) {
        Some(xs[k])
    } else {
        first_free(g, xs, d, k + 1)
    }
}

/// The next dart of the boundary at the vertex of `d`: the first dart of
/// the enumeration of the vertex, other than `d`, that is free in
/// dimension 2.
pub open spec fn boundary_next(g: GMapView, d: int) -> Option<int> {
    first_free(g, g.orbit_list(Alphas::spec_cell(0), d), d, 0)
}

/// The walk along the boundary from `d` on, until it comes to `first` again
/// or finds no next dart; nothing when it has more than `room` darts.
#[verifier::opaque]
pub open spec fn boundary(g: GMapView, first: int, d: int, room: int) -> Option<Seq<int>>
    decreases room,
{
    if room <= 0 {
        None
    } else {
        match boundary_next(g, d) {
            None => Some(seq![d]),
            Some(n) => {
                let d2 = g.al(n, 0);
                if d2 == first {
                    Some(seq![d])
                } else {
                    match boundary(g, first, d2, room - 1) {
                        Some(rest) => Some(seq![d] + rest),
                        None => None,
                    }
                }
            },
        }
    }
}

/// The map after the first `k` darts of the walk are sewn, in turn, to the
/// darts of the exterior polygon that point counter-clockwise, with the
/// dart of the polygon that comes next; nothing when a dart cannot be sewn.
#[verifier::opaque]
pub open spec fn sewn_round(g: GMapView, ring: Seq<int>, ext: int, k: int) -> Option<(GMapView, int)>
    decreases k,
{
    if k <= 0 {
        Some((g, ext))
    } else {
        match sewn_round(g, ring, ext, k - 1) {
            None => None,
            Some(st) => if st.0.can_sew(2, ring[k - 1], st.1) {
                let g2 = st.0.sewn(2, ring[k - 1], st.1);
                Some((g2, g2.al(g2.al(st.1, 1), 0)))
            } else {
                None
            },
        }
    }
}

/// The map wrapped in an exterior face from the boundary dart `start` on;
/// nothing when the walk along the boundary does not return within as many
/// darts as the map has, or a dart of it cannot be sewn.
pub open spec fn wrapped(g: GMapView, start: int) -> Option<GMapView> {
    let first = g.al(start, 0);
    match boundary(g, first, first, g.ndarts()) {
        None => None,
        Some(ring) => match sewn_round(
            g.with_cycle(1, 0, ring.len() as int),
            ring,
            g.ndarts(),
            ring.len() as int,
        ) {
            Some(st) => Some(st.0),
            None => None,
        },
    }
}

/// How the boundary is walked and sewn, one dart after the other.
pub proof fn lemma_wrapping(g: GMapView, first: int, d: int, room: int, ring: Seq<int>, ext: int, k: int)
    requires
        0 <= k,
    ensures
        boundary(g, first, d, room) == (if room <= 0 {
            None
        } else {
            match boundary_next(g, d) {
                None => Some(seq![d]),
                Some(n) => {
                    let d2 = g.al(n, 0);
                    if d2 == first {
                        Some(seq![d])
                    } else {
                        match boundary(g, first, d2, room - 1) {
                            Some(rest) => Some(seq![d] + rest),
                            None => None,
                        }
                    }
                },
            }
        }),
        sewn_round(g, ring, ext, 0) == Some((g, ext)),
        sewn_round(g, ring, ext, k + 1) == (match sewn_round(g, ring, ext, k) {
            None => None,
            Some(st) => if st.0.can_sew(2, ring[k], st.1) {
                let g2 = st.0.sewn(2, ring[k], st.1);
                Some((g2, g2.al(g2.al(st.1, 1), 0)))
            } else {
                None
            },
        }),
{
    reveal(boundary);
    reveal(sewn_round);
}

/// A dart that cannot be sewn stops the round.
pub proof fn lemma_round_stops(g: GMapView, ring: Seq<int>, ext: int, k: int, n: int)
    requires
        0 <= k <= n,
        sewn_round(g, ring, ext, k) is None,
    ensures
        sewn_round(g, ring, ext, n) is None,
    decreases n - k,
{
    if k < n {
        lemma_wrapping(g, 0, 0, 0, ring, ext, k);
        lemma_round_stops(g, ring, ext, k + 1, n);
    }
}

/// The first dart, other than `d`, of the vertex of `d` that is free in
/// dimension 2.
fn next_on_boundary(g: &GMap, d: Dart) -> (r: Option<Dart>)
    requires
        g.wf(),
        g@.dimension >= 2,
        g@.has_dart(d@),
    ensures
        match r {
            Some(n) => boundary_next(g@, d@) == Some(n@) && g@.has_dart(n@),
            None => boundary_next(g@, d@) is None,
        },
{
    let around = g.cell(d, 0);
    let ghost xs = dart_seq(around@);
    let mut k: usize = 0;
    proof {
        let a = Alphas::spec_cell(0);
        assert(g@.orbit_is(a, d@, xs));
        assert(g@.orbit_is(a, d@, g@.orbit_list(a, d@)));
        g@.lemma_orbit_deterministic(a, d@, xs, g@.orbit_list(a, d@));
    }
    while k < around.len()
        invariant
            g.wf(),
            g@.dimension >= 2,
            k <= around@.len(),
            xs == dart_seq(around@),
            xs == g@.orbit_list(Alphas::spec_cell(0), d@),
            forall|j: int| 0 <= j < around@.len() ==> g@.has_dart(#[trigger] around@[j]@),
            boundary_next(g@, d@) == first_free(g@, xs, d@, k as int),
        decreases around@.len() - k,
    {
        let n = around[k];
        proof {
            assert(g@.has_dart(around@[k as int]@));
            assert(xs[k as int] == n@);
        }
        if n.0 != d.0 && g.is_free(n, 2) {
            return Some(n);
        }
        k += 1;
    }
    None
}

/// Wraps the map in an exterior face. `start` is a dart of the boundary that
/// points counter-clockwise. From the clockwise dart on its edge the
/// boundary is walked, at every vertex on to the next dart that is free in
/// dimension 2; a polygon of as many edges as the walk has darts is added,
/// and the darts of the walk are sewn in dimension 2, in turn, to the darts
/// of the polygon that point counter-clockwise. Returns the first dart of
/// the polygon. A walk that does not return to where it began within as
/// many darts as the map has, and a dart that cannot be sewn, are refused.
pub fn wrap_exterior(g: &mut GMap, start: Dart) -> (r: Result<Dart, GMapError>)
    requires
        old(g).wf(),
        old(g)@.dimension >= 2,
        old(g)@.has_dart(start@),
    ensures
        final(g).wf(),
        final(g)@.dimension == old(g)@.dimension,
        final(g)@.ndarts() >= old(g)@.ndarts(),
        match r {
            Ok(ext) => ext@ == old(g)@.ndarts() && final(g)@.ndarts() >= old(g)@.ndarts() + 2
                && wrapped(old(g)@, start@) == Some(final(g)@),
            Err(GMapError::Unsewable) => wrapped(old(g)@, start@) is None,
            Err(GMapError::Deleted) => wrapped(old(g)@, start@) is None,
            Err(_) => false,
        },
{
    let n: usize = g.ndarts();
    let first = g.al1(start, 0);
    let ghost g0 = g@;
    let ghost whole = boundary(g0, first@, first@, n as int);
    let mut interior_boundary: Vec<Dart> = Vec::new();
    let mut d = first;
    proof {
        assert(Seq::<int>::empty() + seq![first@] =~= seq![first@]);
        match boundary(g0, first@, d@, n as int) {
            Some(rest) => {
                assert(dart_seq(interior_boundary@) + rest =~= rest);
            },
            None => {},
        }
    }
    loop
        invariant_except_break
            whole == (match boundary(g0, first@, d@, n - interior_boundary@.len()) {
                Some(rest) => Some(dart_seq(interior_boundary@) + rest),
                None => None,
            }),
        invariant
            g.wf(),
            *g == *old(g),
            g0 == g@,
            g@.dimension >= 2,
            n == g@.ndarts(),
            g@.has_dart(d@),
            interior_boundary@.len() <= n,
            forall|k: int|
                0 <= k < interior_boundary@.len() ==> g@.has_dart(#[trigger] interior_boundary@[k]@),
            whole == boundary(g0, first@, first@, n as int),
            first@ == g0.al(start@, 0),
        ensures
            interior_boundary@.len() >= 1,
            whole == Some(dart_seq(interior_boundary@)),
        decreases n - interior_boundary@.len(),
    {
        let ghost before = dart_seq(interior_boundary@);
        let ghost room = n - interior_boundary@.len();
        proof {
            lemma_wrapping(g0, first@, d@, room, Seq::empty(), 0, 0);
        }
        if interior_boundary.len() >= n {
            return Err(GMapError::Unsewable);
        }
        interior_boundary.push(d);
        proof {
            assert(dart_seq(interior_boundary@) =~= before + seq![d@]);
        }
        match next_on_boundary(g, d) {
            Some(next) => {
                let ghost d1 = d@;
                d = g.al1(next, 0);
                if d.0 == first.0 {
                    break ;
                }
                proof {
                    match boundary(g0, first@, d@, room - 1) {
                        Some(rest) => {
                            assert(before + (seq![d1] + rest) =~= (before + seq![d1]) + rest);
                        },
                        None => {},
                    }
                }
            },
            None => {
                break ;
            },
        }
    }
    let ghost ring = dart_seq(interior_boundary@);
    let ext = g.add_polygon(interior_boundary.len());
    let mut d2 = ext;
    let walk: [usize; 2] = [1, 0];
    let ghost g1 = g@;
    proof {
        old(g)@.lemma_with_chain_valid(1, 0, interior_boundary@.len() as int, true);
        lemma_wrapping(g1, 0, 0, 0, ring, ext@, 0);
        assert(crate::gmap::ints(walk@) =~= seq![1int, 0int]);
    }
    let mut k: usize = 0;
    while k < interior_boundary.len()
        invariant
            g.wf(),
            crate::gmap::ints(walk@) == seq![1int, 0int],
            k <= interior_boundary@.len(),
            ring == dart_seq(interior_boundary@),
            g@.dimension == old(g)@.dimension,
            g@.dimension >= 2,
            g@.ndarts() == g1.ndarts(),
            g1.ndarts() >= old(g)@.ndarts() + 2,
            g@.has_dart(d2@),
            ext@ == old(g)@.ndarts(),
            whole == Some(ring),
            whole == boundary(old(g)@, old(g)@.al(start@, 0), old(g)@.al(start@, 0), old(g)@.ndarts()),
            g1 == old(g)@.with_cycle(1, 0, ring.len() as int),
            sewn_round(g1, ring, ext@, k as int) == Some((g@, d2@)),
            forall|j: int|
                0 <= j < interior_boundary@.len() ==> old(g)@.has_dart(
                    #[trigger] interior_boundary@[j]@,
                ),
        decreases interior_boundary@.len() - k,
    {
        let b = interior_boundary[k];
        proof {
            lemma_wrapping(g1, 0, 0, 0, ring, ext@, k as int);
            assert(ring[k as int] == b@);
        }
        match g.sew(2, b, d2) {
            Ok(_) => {},
            Err(e) => {
                proof {
                    lemma_round_stops(g1, ring, ext@, k + 1, ring.len() as int);
                }
                return Err(e);
            },
        }
        proof {
            g@.lemma_step(d2@, 1, 0);
        }
        d2 = g.al(d2, &walk);
        k += 1;
    }
    Ok(ext)
}

/// The lengths of the first `i` edges of a face, counter-clockwise from the
/// dart `d`, by the least dart of each edge.
#[verifier::opaque]
pub open spec fn lengths_along(g: GMapView, d: int, lengths: Seq<Length>, i: int) -> Map<
    usize,
    Length,
>
    decreases i,
{
    if i <= 0 {
        Map::empty()
    } else {
        lengths_along(g, d, lengths, i - 1).insert(
            g.edge_of(iterate(g.face_step(), (i - 1) as nat, d)) as usize,
            lengths[i - 1],
        )
    }
}

/// How the lengths of the edges of a face are gathered.
pub proof fn lemma_lengths_along(g: GMapView, d: int, lengths: Seq<Length>, i: int)
    requires
        0 <= i,
    ensures
        lengths_along(g, d, lengths, 0) == Map::<usize, Length>::empty(),
        lengths_along(g, d, lengths, i + 1) == lengths_along(g, d, lengths, i).insert(
            g.edge_of(iterate(g.face_step(), i as nat, d)) as usize,
            lengths[i],
        ),
{
    reveal(lengths_along);
}

/// What wrapping a map and giving its edges lengths makes: a problem of the
/// wrapped map without angle constraints, where that map is a closed
/// oriented surface and every edge of it has a length.
pub open spec fn problem_of(
    w: GMapView,
    lengths: Map<usize, Length>,
    ext: int,
    r: Result<Problem, Error>,
) -> bool {
    if w.closed_oriented() && measured(w, lengths) {
        r matches Ok(p) && p.wf() && p.map()@ == w && p.lengths() == lengths && p.angles() == Map::<
            usize,
            Angle,
        >::empty() && p.exterior()@ == ext
    } else {
        r matches Err(Error::Nonplanar)
    }
}

/// Makes a problem without angle constraints of a wrapped map with the
/// lengths of its edges.
fn finish(g: GMap, edge_lengths: HashMap<usize, Length>, ext: Dart) -> (r: Result<Problem, Error>)
    requires
        g.wf(),
    ensures
        problem_of(g@, edge_lengths@, ext@, r),
{
    let angle_constraints: HashMap<usize, Angle> = HashMap::new();
    if !oriented(&g) {
        return Err(Error::Nonplanar);
    }
    let reprs = OrbitReprs::new();
    if !all_measured(&g, &reprs, &edge_lengths) {
        return Err(Error::Nonplanar);
    }
    let ghost gv = g@;
    let ghost c = angle_constraints@;
    let r = Problem::with_exterior(g, edge_lengths, angle_constraints, ext);
    proof {
        assert(c =~= Map::<usize, Angle>::empty());
        assert forall|v: int| !crate::graph::clashes(gv, c, v) by {
            crate::graph::lemma_tally_none(c, gv.corners(v), Angle::Flat);
            crate::graph::lemma_tally_none(c, gv.corners(v), Angle::Mountain);
        }
        assert forall|v: int| !crate::graph::forces(gv, c, v) by {
            crate::graph::lemma_tally_none(c, gv.corners(v), Angle::Flat);
            crate::graph::lemma_tally_none(c, gv.corners(v), Angle::Mountain);
        }
        if r is Ok {
            assert(r->Ok_0.angles() =~= Map::<usize, Angle>::empty());
        }
    }
    r
}

/// What `polygon` makes of the lengths of the edges of a polygon: where the
/// polygon can be wrapped, the problem of the wrapped polygon with these
/// lengths, counter-clockwise from its first dart.
pub open spec fn polygon_made(lengths: Seq<Length>, r: Result<Problem, Error>) -> bool {
    let n = lengths.len() as int;
    match wrapped(GMapView::empty(2).with_cycle(1, 0, n), 0) {
        None => r matches Err(Error::GMap(_)),
        Some(w) => problem_of(w, lengths_along(w, 0, lengths, n), 2 * n, r),
    }
}

/// A polygon whose edges have the given lengths, counter-clockwise from its
/// first dart, wrapped in its exterior face.
pub fn polygon(lengths: &Vec<Length>) -> (r: Result<Problem, Error>)
    requires
        lengths@.len() >= 1,
    ensures
        polygon_made(lengths@, r),
{
    let mut g = GMap::empty(2).unwrap();
    let mut edge_lengths: HashMap<usize, Length> = HashMap::new();
    let count: usize = lengths.len();
    let f = g.add_polygon(count);
    proof {
        GMapView::empty(2).lemma_with_chain_valid(1, 0, count as int, true);
    }
    let ext = match wrap_exterior(&mut g, f) {
        Ok(ext) => ext,
        Err(e) => {
            return Err(Error::GMap(e));
        },
    };
    let mut reprs = OrbitReprs::new();
    reprs.ensure_all(&g, Alphas::edge());
    let walk: [usize; 2] = [1, 0];
    let mut d = f;
    let mut i: usize = 0;
    proof {
        lemma_lengths_along(g@, 0, lengths@, 0);
        assert(crate::gmap::ints(walk@) =~= seq![1int, 0int]);
        assert(edge_lengths@ =~= Map::<usize, Length>::empty());
    }
    while i < count
        invariant
            g.wf(),
            crate::gmap::ints(walk@) == seq![1int, 0int],
            reprs.fits(g@),
            g@.dimension == 2,
            g@.has_dart(d@),
            i <= count,
            count == lengths@.len(),
            d@ == iterate(g@.face_step(), i as nat, 0),
            edge_lengths@ == lengths_along(g@, 0, lengths@, i as int),
        decreases count - i,
    {
        let edge = reprs.get_or_search(&g, Alphas::edge(), d);
        proof {
            lemma_lengths_along(g@, 0, lengths@, i as int);
            g@.lemma_min_unique(Alphas::edge(), d@, edge@, g@.edge_of(d@));
            assert(edge@ as usize == edge.0);
        }
        edge_lengths.insert(edge.0, lengths[i]);
        d = g.al(d, &walk);
        i += 1;
    }
    finish(g, edge_lengths, ext)
}

/// A square with edges of lengths 1, 1, 2, 2.
pub fn kite() -> (r: Result<Problem, Error>)
    ensures
        polygon_made(seq![1i32, 1i32, 2i32, 2i32], r),
{
    let mut lengths: Vec<Length> = Vec::new();
    lengths.push(1);
    lengths.push(1);
    lengths.push(2);
    lengths.push(2);
    proof {
        assert(lengths@ =~= seq![1i32, 1i32, 2i32, 2i32]);
    }
    polygon(&lengths)
}

/// A square with edges of lengths 1, 2, 3, 2.
pub fn trapezoid() -> (r: Result<Problem, Error>)
    ensures
        polygon_made(seq![1i32, 2i32, 3i32, 2i32], r),
{
    let mut lengths: Vec<Length> = Vec::new();
    lengths.push(1);
    lengths.push(2);
    lengths.push(3);
    lengths.push(2);
    proof {
        assert(lengths@ =~= seq![1i32, 2i32, 3i32, 2i32]);
    }
    polygon(&lengths)
}

/// The lengths `1, 2, .., n, n, .., 2, 1`.
pub open spec fn kite_length(n: int, i: int) -> int {
    if i + 1 <= n {
        i + 1
    } else {
        2 * n - i
    }
}

/// The lengths `1, 2, .., 2 n - 1, n`.
pub open spec fn arc_length(n: int, i: int) -> int {
    if i + 1 <= 2 * n - 1 {
        i + 1
    } else {
        n
    }
}

/// A polygon of `2 n` edges whose lengths rise from 1 to `n` and fall back
/// to 1.
pub fn big_kite(n: usize) -> (r: Result<Problem, Error>)
    requires
        1 <= n <= 0x3FFF_FFFF,
    ensures
        polygon_made(Seq::new((2 * n) as nat, |i: int| kite_length(n as int, i) as i32), r),
{
    let mut lengths: Vec<Length> = Vec::new();
    let mut i: usize = 0;
    while i < 2 * n
        invariant
            1 <= n <= 0x3FFF_FFFF,
            i <= 2 * n,
            lengths@.len() == i,
            forall|k: int| 0 <= k < i ==> #[trigger] lengths@[k] == kite_length(n as int, k),
        decreases 2 * n - i,
    {
        let length: usize = if i + 1 <= n {
            i + 1
        } else {
            2 * n - i
        };
        lengths.push(length as Length);
        i += 1;
    }
    proof {
        assert(lengths@ =~= Seq::new((2 * n) as nat, |i: int| kite_length(n as int, i) as i32));
    }
    polygon(&lengths)
}

/// A polygon of `2 n` edges of length 1.
pub fn regular(n: usize) -> (r: Result<Problem, Error>)
    requires
        1 <= n <= 0x3FFF_FFFF,
    ensures
        polygon_made(Seq::new((2 * n) as nat, |i: int| 1i32), r),
{
    let mut lengths: Vec<Length> = Vec::new();
    let mut i: usize = 0;
    while i < 2 * n
        invariant
            1 <= n <= 0x3FFF_FFFF,
            i <= 2 * n,
            lengths@.len() == i,
            forall|k: int| 0 <= k < i ==> #[trigger] lengths@[k] == 1,
        decreases 2 * n - i,
    {
        lengths.push(1);
        i += 1;
    }
    proof {
        assert(lengths@ =~= Seq::new((2 * n) as nat, |i: int| 1i32));
    }
    polygon(&lengths)
}

/// A polygon of `2 n` edges whose lengths rise from 1 to `2 n - 1`, closed
/// by an edge of length `n`.
pub fn big_arc(n: usize) -> (r: Result<Problem, Error>)
    requires
        1 <= n <= 0x3FFF_FFFF,
    ensures
        polygon_made(Seq::new((2 * n) as nat, |i: int| arc_length(n as int, i) as i32), r),
{
    let mut lengths: Vec<Length> = Vec::new();
    let mut i: usize = 0;
    while i < 2 * n
        invariant
            1 <= n <= 0x3FFF_FFFF,
            i <= 2 * n,
            lengths@.len() == i,
            forall|k: int| 0 <= k < i ==> #[trigger] lengths@[k] == arc_length(n as int, k),
        decreases 2 * n - i,
    {
        let length: usize = if i + 1 <= 2 * n - 1 {
            i + 1
        } else {
            n
        };
        lengths.push(length as Length);
        i += 1;
    }
    proof {
        assert(lengths@ =~= Seq::new((2 * n) as nat, |i: int| arc_length(n as int, i) as i32));
    }
    polygon(&lengths)
}

/// Length 1 for every edge of the map, by the least dart of the edge.
pub open spec fn unit_lengths(g: GMapView) -> Map<usize, Length> {
    Map::new(
        |k: usize| g.live(k as int) && g.is_orbit_min(Alphas::edge(), k as int),
        |k: usize| 1i32,
    )
}

/// What `square_grid` makes: where the grid of `n` rows of `n` squares can
/// be wrapped from the first dart of its first square, the problem of the
/// wrapped grid with edges of length 1.
pub open spec fn grid_made(n: int, r: Result<Problem, Error>) -> bool {
    exists|g: GMapView|
        #[trigger] square::is_square_grid(g, n, n) && g.valid() && (match wrapped(g, 0) {
            None => r matches Err(Error::GMap(_)),
            Some(w) => problem_of(w, unit_lengths(w), 8 * n * n, r),
        })
}

/// The grid of `n` rows of `n` squares with edges of length 1.
pub fn square_grid(n: usize) -> (r: Result<Problem, Error>)
    requires
        n >= 1,
    ensures
        grid_made(n as int, r),
{
    let made_grid = square::new(n, n);
    let mut g = made_grid.0;
    let squares = made_grid.1;
    let ghost g0 = g@;
    let mut edge_lengths: HashMap<usize, Length> = HashMap::new();
    let first: Dart = squares[0][0];
    proof {
        assert(squares@[0]@[0]@ == square::cell(n as int, 0, 0, 0));
        assert(0 * n + 0 == 0) by (nonlinear_arith);
        assert(g@.ndarts() == 8 * (n * n + 0));
        assert(n * n >= 1) by (nonlinear_arith)
            requires
                n >= 1,
        ;
        assert(8 * (n * n + 0) == 8 * n * n) by (nonlinear_arith);
    }
    let ext = match wrap_exterior(&mut g, first) {
        Ok(ext) => ext,
        Err(e) => {
            return Err(Error::GMap(e));
        },
    };
    let edges = g.one_dart_per_cell(1);
    let ghost es = dart_seq(edges@);
    let mut k: usize = 0;
    proof {
        Alphas::lemma_named_cells();
    }
    while k < edges.len()
        invariant
            k <= edges@.len(),
            es == dart_seq(edges@),
            forall|x: usize|
                edge_lengths@.contains_key(x) <==> listed(es.take(k as int), x as int),
            forall|x: usize| edge_lengths@.contains_key(x) ==> #[trigger] edge_lengths@[x] == 1,
        decreases edges@.len() - k,
    {
        let ghost before = edge_lengths@;
        edge_lengths.insert(edges[k].0, 1);
        proof {
            let l0 = es.take(k as int);
            let l1 = es.take(k + 1);
            assert(l1[k as int] == edges@[k as int]@);
            assert forall|x: usize| edge_lengths@.contains_key(x) <==> listed(l1, x as int) by {
                assert(before.contains_key(x) <==> listed(l0, x as int));
                if listed(l0, x as int) {
                    let j = choose|j: int| 0 <= j < l0.len() && #[trigger] l0[j] == x as int;
                    assert(l1[j] == x as int);
                }
                if listed(l1, x as int) {
                    let j = choose|j: int| 0 <= j < l1.len() && #[trigger] l1[j] == x as int;
                    if j < k {
                        assert(l0[j] == x as int);
                    }
                }
            }
        }
        k += 1;
    }
    proof {
        assert(es.take(k as int) =~= es);
        assert(edge_lengths@ =~= unit_lengths(g@)) by {
            assert forall|x: usize| edge_lengths@.contains_key(x) <==> unit_lengths(g@).contains_key(
                x,
            ) by {
                assert(listed(es, x as int) <==> g@.live(x as int) && g@.is_orbit_min(
                    Alphas::edge(),
                    x as int,
                ));
            }
        }
    }
    let r = finish(g, edge_lengths, ext);
    proof {
        assert(square::is_square_grid(g0, n as int, n as int) && g0.valid());
    }
    r
}

} // verus!
