//! Flat folding of a crease pattern as a problem of clauses: the creases
//! round every vertex and every face of an oriented map of dimension 2 are
//! gathered into clauses, each of which asks for a number of mountains.

use crate::clauses::{apply_plan, place, planned, Color, Constraints, ConstraintsView};
use crate::dart::{Alphas, Dart, GMapError};
use crate::finite::iterate;
use crate::model::chain_image;
use crate::gmap::GMap;
use crate::listing::listed;
use crate::model::GMapView;
use crate::orbit::dart_seq;
use crate::orbit_map::OrbitReprs;
use crate::shrink::{initial, mass_bound, shrunk, views, wrap, Span};
use crate::sums::{abs, alt_sum, lemma_alt_bounded, lemma_alt_push, lemma_mass_concat, lemma_mass_push, mass};
use std::collections::HashMap;
use vstd::prelude::*;

verus! {

broadcast use vstd::std_specs::hash::group_hash_axioms;

/// The length of an edge.
pub type Length = i32;

/// Why a problem or its clauses could not be made.
#[derive(Debug)]
pub enum Error {
    /// The angles given at a vertex or round a face cannot hold together.
    BadAngleConstraints,
    /// The lengths round a face, signed in turn, do not add up to zero.
    KawasakiViolation,
    /// The map does not have dimension 2.
    Nonplanar,
    /// An operation on a map failed.
    GMap(GMapError),
}

/// What is asked of the angle between two creases.
#[derive(Debug, PartialEq, Eq, Clone, Copy, Structural)]
pub enum Angle {
    /// 0 degrees.
    Valley,
    /// 180 degrees.
    Flat,
    /// 360 degrees.
    Mountain,
}

impl GMapView {
    /// `xs` lists the angles at the vertex of `v`: the least dart of every
    /// angle that the enumeration of the vertex meets, in the order in which
    /// it first meets them.
    pub open spec fn corners_at(self, v: int, xs: Seq<int>) -> bool {
        exists|ob: Seq<int>|
            #[trigger] self.orbit_is(Alphas::vertex(), v, ob) && xs.len() == self.firsts(
                Alphas::angle(),
                ob,
            ).len() && forall|k: int|
                0 <= k < xs.len() ==> self.is_min_of(
                    Alphas::angle(),
                    self.firsts(Alphas::angle(), ob)[k],
                    #[trigger] xs[k],
                )
    }

    /// The angles at the vertex of `v`.
    pub open spec fn corners(self, v: int) -> Seq<int> {
        choose|xs: Seq<int>| self.corners_at(v, xs)
    }

    /// `v` stands for its vertex: it is the least dart of it.
    pub open spec fn is_vertex(self, v: int) -> bool {
        self.live(v) && self.is_orbit_min(Alphas::vertex(), v)
    }

    /// The least dart of an orbit is determined.
    pub proof fn lemma_min_unique(self, a: Alphas, d: int, m1: int, m2: int)
        requires
            self.is_min_of(a, d, m1),
            self.is_min_of(a, d, m2),
        ensures
            m1 == m2,
    {
    }

    /// The angles at a vertex are determined.
    pub proof fn lemma_corners(self, v: int, xs: Seq<int>)
        requires
            self.corners_at(v, xs),
        ensures
            xs == self.corners(v),
    {
        let ys = self.corners(v);
        let a = Alphas::angle();
        let ob1 = choose|ob: Seq<int>|
            #[trigger] self.orbit_is(Alphas::vertex(), v, ob) && xs.len() == self.firsts(a, ob).len()
                && forall|k: int|
                0 <= k < xs.len() ==> self.is_min_of(a, self.firsts(a, ob)[k], #[trigger] xs[k]);
        let ob2 = choose|ob: Seq<int>|
            #[trigger] self.orbit_is(Alphas::vertex(), v, ob) && ys.len() == self.firsts(a, ob).len()
                && forall|k: int|
                0 <= k < ys.len() ==> self.is_min_of(a, self.firsts(a, ob)[k], #[trigger] ys[k]);
        self.lemma_orbit_deterministic(Alphas::vertex(), v, ob1, ob2);
        assert forall|k: int| 0 <= k < xs.len() implies xs[k] == ys[k] by {
            self.lemma_min_unique(a, self.firsts(a, ob1)[k], xs[k], ys[k]);
        }
        assert(xs =~= ys);
    }

    /// A dart that a path over a mask reaches is reached over every mask
    /// that holds the first.
    pub proof fn lemma_reaches_wider(self, a: Alphas, b: Alphas, d: int, e: int)
        requires
            self.reaches(a, d, e),
            forall|i: int| self.has_index(i) && a.contains(i) ==> b.contains(i),
        ensures
            self.reaches(b, d, e),
    {
        let p = choose|p: Seq<int>| self.path_in(a, p) && #[trigger] self.walk(d, p) == e;
        assert(self.path_in(b, p));
    }

    /// Every angle at a vertex lies in the orbit of the vertex.
    pub proof fn lemma_corner_reached(self, v: int, x: int)
        requires
            self.sound(),
            self.has_dart(v),
            listed(self.corners(v), x),
            self.corners_at(v, self.corners(v)),
        ensures
            self.reaches(Alphas::vertex(), v, x),
            self.has_dart(x),
    {
        let xs = self.corners(v);
        let a = Alphas::angle();
        let b = Alphas::vertex();
        let ob = choose|ob: Seq<int>|
            #[trigger] self.orbit_is(b, v, ob) && xs.len() == self.firsts(a, ob).len() && forall|
                k: int,
            |
                0 <= k < xs.len() ==> self.is_min_of(a, self.firsts(a, ob)[k], #[trigger] xs[k]);
        let k = choose|k: int| 0 <= k < xs.len() && #[trigger] xs[k] == x;
        let f = self.firsts(a, ob)[k];
        self.lemma_firsts_member(a, ob, f);
        assert(listed(self.firsts(a, ob), f));
        assert(listed(ob, f));
        self.lemma_orbit_is(b, v, ob);
        assert(self.reaches(b, v, f));
        assert(self.is_min_of(a, f, xs[k]));
        Alphas::lemma_named_masks();
        self.lemma_reaches_wider(a, b, f, x);
        self.lemma_reaches_trans(b, v, f, x);
        self.lemma_reaches_has_dart(b, v, x);
    }
}

/// How many of the darts `xs` are held to the angle `what`.
pub open spec fn tally(c: Map<usize, Angle>, xs: Seq<int>, what: Angle) -> nat
    decreases xs.len(),
{
    if xs.len() == 0 {
        0
    } else {
        tally(c, xs.drop_last(), what) + (if held(c, xs.last(), what) {
            1nat
        } else {
            0nat
        })
    }
}

/// The dart `x` is held to the angle `what`.
pub open spec fn held(c: Map<usize, Angle>, x: int, what: Angle) -> bool {
    0 <= x <= usize::MAX && c.contains_key(x as usize) && c[x as usize] == what
}

/// The angles at a vertex cannot hold together: with `flats` flat ones and
/// `mountains` mountains among them.
pub open spec fn clash(flats: nat, mountains: nat) -> bool {
    (flats != 0 && flats != 2) || mountains > 1 || (flats == 2 && mountains == 1)
}

/// Two flat angles or one mountain at a vertex make every other angle at
/// the vertex flat.
pub open spec fn forcing(flats: nat, mountains: nat) -> bool {
    flats == 2 || mountains == 1
}

/// The angles given at the vertex of `v` cannot hold together.
pub open spec fn clashes(g: GMapView, c: Map<usize, Angle>, v: int) -> bool {
    clash(tally(c, g.corners(v), Angle::Flat), tally(c, g.corners(v), Angle::Mountain))
}

/// The angles given at the vertex of `v` make the others at it flat.
pub open spec fn forces(g: GMapView, c: Map<usize, Angle>, v: int) -> bool {
    forcing(tally(c, g.corners(v), Angle::Flat), tally(c, g.corners(v), Angle::Mountain))
}

/// The dart `x` is an angle at a vertex below `bound` whose given angles make
/// the others flat.
pub open spec fn forced(g: GMapView, c: Map<usize, Angle>, x: int, bound: int) -> bool {
    exists|v: int|
        v < bound && #[trigger] g.is_vertex(v) && forces(g, c, v) && listed(g.corners(v), x)
}

/// The angles `c`, and a flat angle at every dart that `c` leaves open and
/// that is forced at a vertex below `bound`.
pub open spec fn propagated(g: GMapView, c: Map<usize, Angle>, bound: int) -> Map<usize, Angle> {
    Map::new(
        |x: usize| c.contains_key(x) || forced(g, c, x as int, bound),
        |x: usize|
            if c.contains_key(x) {
                c[x]
            } else {
                Angle::Flat
            },
    )
}

/// Where nothing is asked, nothing is held.
pub proof fn lemma_tally_none(c: Map<usize, Angle>, xs: Seq<int>, what: Angle)
    requires
        c == Map::<usize, Angle>::empty(),
    ensures
        tally(c, xs, what) == 0,
    decreases xs.len(),
{
    if xs.len() > 0 {
        lemma_tally_none(c, xs.drop_last(), what);
    }
}

/// Two maps that hold the same of every dart of a list give the same tally.
pub proof fn lemma_tally_same(c1: Map<usize, Angle>, c2: Map<usize, Angle>, xs: Seq<int>, what: Angle)
    requires
        forall|k: int| 0 <= k < xs.len() ==> held(c1, #[trigger] xs[k], what) == held(c2, xs[k], what),
    ensures
        tally(c1, xs, what) == tally(c2, xs, what),
    decreases xs.len(),
{
    if xs.len() > 0 {
        lemma_tally_same(c1, c2, xs.drop_last(), what);
    }
}

/// Counts the darts of a list that are held to an angle.
fn count_held(c: &HashMap<usize, Angle>, xs: &Vec<Dart>, what: Angle) -> (r: usize)
    ensures
        r == tally(c@, dart_seq(xs@), what),
{
    let mut r: usize = 0;
    let mut k: usize = 0;
    let ghost l = dart_seq(xs@);
    while k < xs.len()
        invariant
            k <= xs@.len(),
            l == dart_seq(xs@),
            r == tally(c@, l.take(k as int), what),
            r <= k,
        decreases xs@.len() - k,
    {
        proof {
            assert(l.take(k + 1).drop_last() =~= l.take(k as int));
            assert(l.take(k + 1).last() == xs@[k as int]@);
        }
        let hit = match c.get(&xs[k].0) {
            Some(a) => *a == what,
            None => false,
        };
        if hit {
            r += 1;
        }
        k += 1;
    }
    proof {
        assert(l.take(k as int) =~= l);
    }
    r
}

/// Every edge of the map has a length: the least dart of every edge is a key.
pub open spec fn measured(g: GMapView, lengths: Map<usize, Length>) -> bool {
    forall|d: int, m: int|
        g.has_dart(d) && #[trigger] g.is_min_of(Alphas::edge(), d, m) ==> lengths.contains_key(
            m as usize,
        )
}

/// Whether the map is a closed oriented surface.
pub fn oriented(g: &GMap) -> (b: bool)
    requires
        g.wf_links(),
    ensures
        b == g@.closed_oriented(),
{
    if g.dimension() != 2 {
        return false;
    }
    let n: usize = g.ndarts();
    let mut k: usize = 0;
    while k < n
        invariant
            g.wf_links(),
            g@.dimension == 2,
            n == g@.ndarts(),
            k <= n,
            forall|d: int| 0 <= d < k ==> !#[trigger] g@.deleted[d],
            forall|d: int|
                0 <= d < k ==> #[trigger] g@.al(d, 0) != d && g@.ccw(g@.al(d, 0)) != g@.ccw(d),
            forall|d: int| 0 <= d < k ==> #[trigger] g@.al(d, 1) != d,
            forall|d: int|
                0 <= d < k ==> #[trigger] g@.al(d, 2) != d && g@.ccw(g@.al(d, 2)) != g@.ccw(d),
        decreases n - k,
    {
        let d = Dart(k);
        let a0 = g.al1(d, 0);
        let a1 = g.al1(d, 1);
        let a2 = g.al1(d, 2);
        if g.is_deleted(d) || a0.0 == k || a1.0 == k || a2.0 == k {
            return false;
        }
        let ccw: bool = k < a1.0;
        let ccw0: bool = a0.0 < g.al1(a0, 1).0;
        let ccw2: bool = a2.0 < g.al1(a2, 1).0;
        if ccw0 == ccw || ccw2 == ccw {
            return false;
        }
        k += 1;
    }
    true
}

/// Whether every edge of the map has a length.
pub fn all_measured(g: &GMap, reprs: &OrbitReprs, lengths: &HashMap<usize, Length>) -> (b: bool)
    requires
        g.wf_links(),
        reprs.fits(g@),
    ensures
        b == measured(g@, lengths@),
{
    let n: usize = g.ndarts();
    let mut k: usize = 0;
    while k < n
        invariant
            g.wf_links(),
            reprs.fits(g@),
            n == g@.ndarts(),
            k <= n,
            forall|d: int, m: int|
                0 <= d < k && #[trigger] g@.is_min_of(Alphas::edge(), d, m) ==> lengths@.contains_key(
                    m as usize,
                ),
        decreases n - k,
    {
        let m = reprs.get_or_search(g, Alphas::edge(), Dart(k));
        if !lengths.contains_key(&m.0) {
            proof {
                assert(g@.has_dart(k as int) && g@.is_min_of(Alphas::edge(), k as int, m@));
                assert(m@ as usize == m.0);
            }
            return false;
        }
        proof {
            assert forall|m2: int| #[trigger]
                g@.is_min_of(Alphas::edge(), k as int, m2) implies lengths@.contains_key(
                m2 as usize,
            ) by {
                g@.lemma_min_unique(Alphas::edge(), k as int, m@, m2);
            }
        }
        k += 1;
    }
    true
}

/// A crease pattern to fold flat: a closed oriented map with its exterior
/// face, the length of every edge, and what is asked of some angles.
pub struct Problem {
    g: GMap,
    reprs: OrbitReprs,
    edge_lengths: HashMap<usize, Length>,
    angle_constraints: HashMap<usize, Angle>,
    exterior_face: Dart,
}

impl Problem {
    /// The map.
    pub closed spec fn map(&self) -> GMap {
        self.g
    }

    /// The length of every edge, by the least dart of the edge.
    pub closed spec fn lengths(&self) -> Map<usize, Length> {
        self.edge_lengths@
    }

    /// What is asked of the angles, by the least dart of the angle.
    pub closed spec fn angles(&self) -> Map<usize, Angle> {
        self.angle_constraints@
    }

    /// A dart of the exterior face.
    pub closed spec fn exterior(&self) -> Dart {
        self.exterior_face
    }

    /// The map is a closed oriented surface, every edge of it has a length,
    /// and the least darts of its angles and of its edges are at hand.
    pub closed spec fn wf(&self) -> bool {
        &&& self.g.wf()
        &&& self.g@.closed_oriented()
        &&& measured(self.g@, self.edge_lengths@)
        &&& self.reprs.fits(self.g@)
        &&& self.reprs.has_table(Alphas::angle())
        &&& self.reprs.has_table(Alphas::edge())
    }

    /// What a well-formed problem holds.
    pub proof fn lemma_wf(&self)
        requires
            self.wf(),
        ensures
            self.map().wf(),
            self.map()@.closed_oriented(),
            measured(self.map()@, self.lengths()),
    {
    }

    /// Makes a problem of a map, the lengths of its edges, what is asked of
    /// its angles, and a dart of its exterior face. A map that does not have
    /// dimension 2 is refused. Where two flat angles or one mountain are
    /// asked for at a vertex, every angle at that vertex of which nothing is
    /// asked becomes flat; angles at one vertex that cannot hold together are
    /// refused.
    pub fn with_exterior(
        g: GMap,
        edge_lengths: HashMap<usize, Length>,
        angle_constraints: HashMap<usize, Angle>,
        exterior_face: Dart,
    ) -> (r: Result<Problem, Error>)
        requires
            g.wf(),
            g@.dimension == 2 ==> g@.closed_oriented() && measured(g@, edge_lengths@),
        ensures
            match r {
                Ok(p) => {
                    &&& g@.dimension == 2
                    &&& forall|v: int| g@.is_vertex(v) ==> !clashes(g@, angle_constraints@, v)
                    &&& p.wf()
                    &&& p.map() == g
                    &&& p.lengths() == edge_lengths@
                    &&& p.angles() == propagated(g@, angle_constraints@, g@.ndarts())
                    &&& p.exterior() == exterior_face
                },
                Err(Error::Nonplanar) => g@.dimension != 2,
                Err(Error::BadAngleConstraints) => g@.dimension == 2 && exists|v: int|
                    #[trigger] g@.is_vertex(v) && clashes(g@, angle_constraints@, v),
                Err(_) => false,
            },
    {
        if g.dimension() != 2 {
            return Err(Error::Nonplanar);
        }
        let mut reprs = OrbitReprs::new();
        reprs.ensure_all(&g, Alphas::angle());
        reprs.ensure_all(&g, Alphas::edge());
        let mut x = Problem { g, reprs, edge_lengths, angle_constraints, exterior_face };
        match x.preprocess_angle_constraints() {
            Ok(()) => Ok(x),
            Err(e) => Err(e),
        }
    }

    /// The map.
    pub fn g(&self) -> (r: &GMap)
        ensures
            *r == self.map(),
    {
        &self.g
    }

    /// The length of every edge, by the least dart of the edge.
    pub fn edge_lengths(&self) -> (r: &HashMap<usize, Length>)
        ensures
            r@ == self.lengths(),
    {
        &self.edge_lengths
    }

    /// What is asked of the angles, by the least dart of the angle.
    pub fn angle_constraints(&self) -> (r: &HashMap<usize, Angle>)
        ensures
            r@ == self.angles(),
    {
        &self.angle_constraints
    }

    /// A dart of the exterior face.
    pub fn exterior_face(&self) -> (r: Dart)
        ensures
            r == self.exterior(),
    {
        self.exterior_face
    }

    /// Looks at the angles at every vertex in turn, and makes flat what two
    /// flat angles or one mountain at the vertex force to be flat.
    fn preprocess_angle_constraints(&mut self) -> (r: Result<(), Error>)
        requires
            old(self).wf(),
        ensures
            final(self).g == old(self).g,
            final(self).edge_lengths == old(self).edge_lengths,
            final(self).exterior_face == old(self).exterior_face,
            final(self).wf(),
            match r {
                Ok(_) => {
                    &&& forall|v: int|
                        old(self).g@.is_vertex(v) ==> !clashes(
                            old(self).g@,
                            old(self).angle_constraints@,
                            v,
                        )
                    &&& final(self).angle_constraints@ == propagated(
                        old(self).g@,
                        old(self).angle_constraints@,
                        old(self).g@.ndarts(),
                    )
                },
                Err(Error::BadAngleConstraints) => exists|v: int|
                    #[trigger] old(self).g@.is_vertex(v) && clashes(
                        old(self).g@,
                        old(self).angle_constraints@,
                        v,
                    ),
                Err(_) => false,
            },
    {
        let ghost g = self.g@;
        let ghost c0 = self.angle_constraints@;
        let vertices = self.g.one_dart_per_cell(0);
        let ghost vs = dart_seq(vertices@);
        proof {
            Alphas::lemma_named_cells();
            assert(self.angle_constraints@ =~= propagated(g, c0, 0));
        }
        let mut t: usize = 0;
        while t < vertices.len()
            invariant
                self.g == old(self).g,
                self.edge_lengths == old(self).edge_lengths,
                self.exterior_face == old(self).exterior_face,
                self.reprs == old(self).reprs,
                self.wf(),
                g == self.g@,
                c0 == old(self).angle_constraints@,
                vs == dart_seq(vertices@),
                t <= vertices@.len(),
                forall|k1: int, k2: int| 0 <= k1 < k2 < vs.len() ==> vs[k1] < vs[k2],
                forall|x: int| listed(vs, x) <==> g.is_vertex(x),
                forall|k: int| 0 <= k < t ==> !clashes(g, c0, #[trigger] vs[k]),
                forall|k: int| 0 <= k < t ==> g.corners_at(#[trigger] vs[k], g.corners(vs[k])),
                self.angle_constraints@ == propagated(
                    g,
                    c0,
                    if t < vs.len() {
                        vs[t as int]
                    } else {
                        g.ndarts() as int
                    },
                ),
            decreases vertices@.len() - t,
        {
            let vertex = vertices[t];
            let ghost v = vertex@;
            let ghost cur = self.angle_constraints@;
            let ghost next: int = if t + 1 < vs.len() {
                vs[t + 1]
            } else {
                g.ndarts() as int
            };
            proof {
                assert(vs[t as int] == v);
                assert(listed(vs, v));
            }
            let angles = self.reprs.orbit_repr_per_incident_orbit(
                &self.g,
                vertex,
                Alphas::angle(),
                Alphas::vertex(),
            );
            let ghost xs = dart_seq(angles@);
            proof {
                let ob = choose|ob: Seq<int>|
                    #[trigger] g.orbit_is(Alphas::vertex(), v, ob) && angles@.len() == g.firsts(
                        Alphas::angle(),
                        ob,
                    ).len() && forall|k: int|
                        0 <= k < angles@.len() ==> g.is_min_of(
                            Alphas::angle(),
                            g.firsts(Alphas::angle(), ob)[k],
                            (#[trigger] angles@[k])@,
                        );
                assert forall|k: int| 0 <= k < xs.len() implies g.is_min_of(
                    Alphas::angle(),
                    g.firsts(Alphas::angle(), ob)[k],
                    #[trigger] xs[k],
                ) by {
                    assert(xs[k] == angles@[k]@);
                }
                assert(g.corners_at(v, xs));
                g.lemma_corners(v, xs);
                // what was made flat so far lies at other vertices
                assert forall|k: int| 0 <= k < xs.len() implies (cur.contains_key(
                    #[trigger] xs[k] as usize,
                ) <==> c0.contains_key(xs[k] as usize)) by {
                    assert(xs[k] == angles@[k]@);
                    if forced(g, c0, xs[k], v) {
                        let w = choose|w: int|
                            w < v && #[trigger] g.is_vertex(w) && forces(g, c0, w) && listed(
                                g.corners(w),
                                xs[k],
                            );
                        assert(listed(vs, w));
                        let i = choose|i: int| 0 <= i < vs.len() && #[trigger] vs[i] == w;
                        if i > t {
                            assert(vs[t as int] < vs[i]);
                        }
                        lemma_other_vertex(g, v, w, xs[k]);
                    }
                }
                lemma_tally_same(cur, c0, xs, Angle::Flat);
                lemma_tally_same(cur, c0, xs, Angle::Mountain);
            }
            let flats = count_held(&self.angle_constraints, &angles, Angle::Flat);
            let mountains = count_held(&self.angle_constraints, &angles, Angle::Mountain);
            if (flats != 0 && flats != 2) || mountains > 1 || (flats == 2 && mountains == 1) {
                return Err(Error::BadAngleConstraints);
            }
            if flats == 2 || mountains == 1 {
                let mut j: usize = 0;
                while j < angles.len()
                    invariant
                        self.g == old(self).g,
                        self.edge_lengths == old(self).edge_lengths,
                        self.exterior_face == old(self).exterior_face,
                        self.reprs == old(self).reprs,
                        j <= angles@.len(),
                        xs == dart_seq(angles@),
                        forall|x: usize| #[trigger]
                            self.angle_constraints@.contains_key(x) <==> cur.contains_key(x)
                                || listed(xs.take(j as int), x as int),
                        forall|x: usize| #[trigger]
                            self.angle_constraints@.contains_key(x) ==> self.angle_constraints@[x]
                                == (if cur.contains_key(x) {
                                cur[x]
                            } else {
                                Angle::Flat
                            }),
                    decreases angles@.len() - j,
                {
                    let a = angles[j];
                    let ghost before = self.angle_constraints@;
                    if !self.angle_constraints.contains_key(&a.0) {
                        self.angle_constraints.insert(a.0, Angle::Flat);
                    }
                    proof {
                        let l0 = xs.take(j as int);
                        let l1 = xs.take(j + 1);
                        assert(xs[j as int] == angles@[j as int]@);
                        assert(l1[j as int] == a@);
                        assert(listed(l1, a@));
                        assert forall|x: usize| #[trigger]
                            self.angle_constraints@.contains_key(x) <==> cur.contains_key(x)
                                || listed(l1, x as int) by {
                            assert(before.contains_key(x) <==> cur.contains_key(x) || listed(
                                l0,
                                x as int,
                            ));
                            assert(self.angle_constraints@.contains_key(x) <==> before.contains_key(x)
                                || x == a.0);
                            if listed(l0, x as int) {
                                let i = choose|i: int| 0 <= i < l0.len() && #[trigger] l0[i] == x;
                                assert(l1[i] == x);
                            }
                            if listed(l1, x as int) {
                                let i = choose|i: int| 0 <= i < l1.len() && #[trigger] l1[i] == x;
                                if i < j {
                                    assert(l0[i] == x);
                                    assert(listed(l0, x as int));
                                } else {
                                    assert(x == a.0);
                                }
                                assert(self.angle_constraints@.contains_key(x));
                            }
                            if x == a.0 {
                                assert(listed(l1, x as int));
                            }
                            if before.contains_key(x) {
                                assert(cur.contains_key(x) || listed(l0, x as int));
                                assert(cur.contains_key(x) || listed(l1, x as int));
                            }
                        }
                    }
                    j += 1;
                }
                proof {
                    assert(xs.take(j as int) =~= xs);
                }
            }
            proof {
                let now = self.angle_constraints@;
                let target = propagated(g, c0, next);
                assert(vs[t as int] < next) by {
                    if t + 1 < vs.len() {
                    } else {
                        assert(g.is_vertex(v));
                    }
                }
                assert forall|x: usize| now.contains_key(x) <==> target.contains_key(x) by {
                    if forced(g, c0, x as int, v) {
                        let w = choose|w: int|
                            w < v && #[trigger] g.is_vertex(w) && forces(g, c0, w) && listed(
                                g.corners(w),
                                x as int,
                            );
                        assert(w < next);
                    }
                    if forced(g, c0, x as int, next) {
                        let w = choose|w: int|
                            w < next && #[trigger] g.is_vertex(w) && forces(g, c0, w) && listed(
                                g.corners(w),
                                x as int,
                            );
                        assert(listed(vs, w));
                        let i = choose|i: int| 0 <= i < vs.len() && #[trigger] vs[i] == w;
                        if i > t {
                            if t + 1 < vs.len() {
                                if i > t + 1 {
                                    assert(vs[t + 1] < vs[i]);
                                }
                            }
                            assert(false);
                        }
                        if i < t {
                            assert(vs[i] < vs[t as int]);
                            assert(forced(g, c0, x as int, v));
                        }
                        if i == t {
                            assert(w == v);
                            assert(listed(xs, x as int));
                            assert(forcing(flats as nat, mountains as nat));
                            assert(now.contains_key(x));
                        }
                    }
                    assert(now.contains_key(x) ==> target.contains_key(x));
                    assert(target.contains_key(x) ==> now.contains_key(x));
                    if forces(g, c0, v) && listed(xs, x as int) {
                        assert(g.is_vertex(v));
                        assert(forced(g, c0, x as int, next));
                    }
                }
                assert(now =~= target);
            }
            t += 1;
        }
        proof {
            assert forall|v: int| g.is_vertex(v) implies !clashes(g, c0, v) by {
                assert(listed(vs, v));
            }
        }
        Ok(())
    }
}

/// An angle at one vertex is no angle at another.
proof fn lemma_other_vertex(g: GMapView, v: int, w: int, x: int)
    requires
        g.sound(),
        g.is_vertex(v),
        g.is_vertex(w),
        listed(g.corners(v), x),
        listed(g.corners(w), x),
        g.corners_at(v, g.corners(v)),
        g.corners_at(w, g.corners(w)),
    ensures
        v == w,
{
    let b = Alphas::vertex();
    g.lemma_corner_reached(v, x);
    g.lemma_corner_reached(w, x);
    g.lemma_reaches_sym(b, w, x);
    g.lemma_reaches_trans(b, v, x, w);
    g.lemma_reaches_sym(b, v, w);
}

impl GMapView {
    /// The corners of the face of `f`, counter-clockwise from `f`.
    pub open spec fn turn(self, f: int) -> Seq<int> {
        choose|xs: Seq<int>| self.is_turn(self.face_step(), f, xs)
    }

    /// The least dart of the edge of `x`.
    pub open spec fn edge_of(self, x: int) -> int {
        choose|m: int| self.is_min_of(Alphas::edge(), x, m)
    }
}

/// The length of the edge of `x`.
pub open spec fn edge_len(g: GMapView, lengths: Map<usize, Length>, x: int) -> int {
    lengths[g.edge_of(x) as usize] as int
}

/// The corner `i` places after corner `s`, for `i` up to once round.
pub open spec fn round(cs: Seq<int>, s: int, i: int) -> int {
    cs[wrap(cs.len() as int, s + i)]
}

/// The sum of the lengths of the edges that lead from the corner `i` places
/// after `s` to the next corner that is not flat.
pub open spec fn run_after(
    g: GMapView,
    lengths: Map<usize, Length>,
    angles: Map<usize, Angle>,
    cs: Seq<int>,
    s: int,
    i: int,
) -> int
    decreases cs.len() - i,
{
    if i >= cs.len() {
        0
    } else {
        let x = round(cs, s, i + 1);
        edge_len(g, lengths, x) + (if held(angles, x, Angle::Flat) {
            run_after(g, lengths, angles, cs, s, i + 1)
        } else {
            0
        })
    }
}

/// The corners that are not flat among the first `k` from `s` on, each with
/// the sum of the lengths that lead from it to the next such corner.
pub open spec fn effective(
    g: GMapView,
    lengths: Map<usize, Length>,
    angles: Map<usize, Angle>,
    cs: Seq<int>,
    s: int,
    k: int,
) -> Seq<(int, int)>
    decreases k,
{
    if k <= 0 {
        Seq::empty()
    } else {
        let r = effective(g, lengths, angles, cs, s, k - 1);
        let x = round(cs, s, k - 1);
        if held(angles, x, Angle::Flat) {
            r
        } else {
            r.push((x, run_after(g, lengths, angles, cs, s, k - 1)))
        }
    }
}

/// The places, among the first `k` from `s` on, of the corners that are not
/// flat.
pub open spec fn places(angles: Map<usize, Angle>, cs: Seq<int>, s: int, k: int) -> Seq<int>
    decreases k,
{
    if k <= 0 {
        Seq::empty()
    } else {
        let r = places(angles, cs, s, k - 1);
        if held(angles, round(cs, s, k - 1), Angle::Flat) {
            r
        } else {
            r.push(k - 1)
        }
    }
}

/// The corners with their effective lengths are the corners that are not
/// flat, in their order round the face.
pub proof fn lemma_effective(
    g: GMapView,
    lengths: Map<usize, Length>,
    angles: Map<usize, Angle>,
    cs: Seq<int>,
    s: int,
    k: int,
)
    requires
        0 <= k,
    ensures
        effective(g, lengths, angles, cs, s, k).len() == places(angles, cs, s, k).len(),
        forall|j: int|
            0 <= j < places(angles, cs, s, k).len() ==> 0 <= #[trigger] places(angles, cs, s, k)[j]
                < k && !held(angles, round(cs, s, places(angles, cs, s, k)[j]), Angle::Flat)
                && effective(g, lengths, angles, cs, s, k)[j].0 == round(
                cs,
                s,
                places(angles, cs, s, k)[j],
            ),
        forall|j1: int, j2: int|
            0 <= j1 < j2 < places(angles, cs, s, k).len() ==> #[trigger] places(angles, cs, s, k)[j1]
                < #[trigger] places(angles, cs, s, k)[j2],
        forall|i: int|
            0 <= i < k && !held(angles, round(cs, s, i), Angle::Flat) ==> listed(
                places(angles, cs, s, k),
                i,
            ),
    decreases k,
{
    if k > 0 {
        lemma_effective(g, lengths, angles, cs, s, k - 1);
        let p0 = places(angles, cs, s, k - 1);
        let p = places(angles, cs, s, k);
        assert forall|i: int| 0 <= i < k && !held(angles, round(cs, s, i), Angle::Flat) implies listed(
            p,
            i,
        ) by {
            if i < k - 1 {
                assert(listed(p0, i));
                let j = choose|j: int| 0 <= j < p0.len() && #[trigger] p0[j] == i;
                assert(p[j] == i);
            } else {
                assert(p[p.len() - 1] == i);
            }
        }
    }
}

/// `s` is the place of the first corner that is not flat.
pub open spec fn first_corner(angles: Map<usize, Angle>, cs: Seq<int>, s: int) -> bool {
    &&& 0 <= s < cs.len()
    &&& !held(angles, cs[s], Angle::Flat)
    &&& forall|k: int| 0 <= k < s ==> held(angles, #[trigger] cs[k], Angle::Flat)
}

/// The corners of the face of `f` that are not flat, counter-clockwise from
/// the first of them, each with its effective length: the sum of the
/// lengths of the edges that lead from it to the next of them. Nothing when
/// every corner of the face is flat.
pub open spec fn face_spans(
    g: GMapView,
    lengths: Map<usize, Length>,
    angles: Map<usize, Angle>,
    f: int,
) -> Option<Seq<(int, int)>> {
    let cs = g.turn(f);
    if exists|s: int| first_corner(angles, cs, s) {
        let s = choose|s: int| first_corner(angles, cs, s);
        Some(effective(g, lengths, angles, cs, s, cs.len() as int))
    } else {
        None
    }
}

/// The corners and lengths of a list, as integers.
pub open spec fn pairs(v: Seq<(Dart, Span)>) -> Seq<(int, int)> {
    Seq::new(v.len(), |k: int| (v[k].0@, v[k].1 as int))
}

/// The lengths of a list of corners and lengths.
pub open spec fn spans(v: Seq<(Dart, Span)>) -> Seq<int> {
    Seq::new(v.len(), |k: int| v[k].1 as int)
}

/// The lengths of a list of corners and lengths.
pub open spec fn seconds(v: Seq<(int, int)>) -> Seq<int> {
    Seq::new(v.len(), |k: int| v[k].1)
}

/// Whether the lengths of a face can fold flat, as far as the face alone
/// tells: none when its corners that are not flat are even in number and
/// their effective lengths, signed in turn, add up to zero.
pub open spec fn face_fault(
    g: GMapView,
    lengths: Map<usize, Length>,
    angles: Map<usize, Angle>,
    f: int,
) -> Option<Error> {
    match face_spans(g, lengths, angles, f) {
        None => Some(Error::BadAngleConstraints),
        Some(l) => if l.len() % 2 != 0 {
            Some(Error::BadAngleConstraints)
        } else if alt_sum(seconds(l)) != 0 {
            Some(Error::KawasakiViolation)
        } else {
            None
        },
    }
}

impl Problem {
    /// The corners of a face that are not flat, counter-clockwise from the
    /// first of them, each with the sum of the lengths of the edges that lead
    /// from it to the next of them. A face whose corners are all flat, or
    /// whose corners that are not flat are odd in number, is refused.
    pub fn nonflat_lengths(&self, face: Dart) -> (r: Result<Vec<(Dart, Span)>, Error>)
        requires
            self.wf(),
            self.map()@.has_dart(face@),
        ensures
            match r {
                Ok(v) => {
                    &&& face_spans(self.map()@, self.lengths(), self.angles(), face@) == Some(
                        pairs(v@),
                    )
                    &&& v@.len() % 2 == 0
                    &&& v@.len() >= 2
                    &&& mass(spans(v@)) <= mass_bound()
                    &&& self.map()@.is_turn(
                        self.map()@.face_step(),
                        face@,
                        self.map()@.turn(face@),
                    )
                    &&& forall|k: int| 0 <= k < v@.len() ==> listed(
                        self.map()@.turn(face@),
                        (#[trigger] v@[k]).0@,
                    ) && !held(self.angles(), v@[k].0@, Angle::Flat)
                    &&& forall|x: int| #[trigger]
                        listed(self.map()@.turn(face@), x) && !held(self.angles(), x, Angle::Flat)
                            ==> exists|k: int| 0 <= k < v@.len() && (#[trigger] v@[k]).0@ == x
                    &&& forall|k1: int, k2: int|
                        0 <= k1 < k2 < v@.len() ==> (#[trigger] v@[k1]).0@ != (#[trigger] v@[k2]).0@
                },
                Err(Error::BadAngleConstraints) => match face_spans(
                    self.map()@,
                    self.lengths(),
                    self.angles(),
                    face@,
                ) {
                    None => true,
                    Some(l) => l.len() % 2 != 0,
                },
                Err(_) => false,
            },
    {
        let ghost g = self.g@;
        let ghost lengths = self.edge_lengths@;
        let ghost angles = self.angle_constraints@;
        let face_walk: [usize; 2] = [1, 0];
        proof {
            assert(crate::gmap::ints(face_walk@) =~= seq![1int, 0int]);
        }
        let corners = self.g.cycle(face, &face_walk);
        let ghost cs = dart_seq(corners@);
        let n: usize = corners.len();
        proof {
            assert(g.is_turn(g.face_step(), face@, cs)) by {
                assert forall|k: int| 0 <= k < cs.len() implies cs[k] == #[trigger] crate::finite::iterate(
                    g.face_step(),
                    k as nat,
                    face@,
                ) by {
                    assert(cs[k] == corners@[k]@);
                }
            }
            g.lemma_turn_unique(g.face_step(), face@, cs, g.turn(face@));
            g.lemma_turn_distinct(g.face_step(), face@, cs);
        }
        // the first corner that is not flat
        let mut s: usize = 0;
        while s < n && self.is_flat(corners[s])
            invariant
                self.wf(),
                n == corners@.len(),
                s <= n,
                cs == dart_seq(corners@),
                angles == self.angle_constraints@,
                forall|k: int| 0 <= k < n ==> g.has_dart(#[trigger] corners@[k]@),
                forall|k: int| 0 <= k < s ==> held(angles, #[trigger] cs[k], Angle::Flat),
            decreases n - s,
        {
            proof {
                assert(cs[s as int] == corners@[s as int]@);
            }
            s += 1;
        }
        if s == n {
            proof {
                assert forall|s1: int| !first_corner(angles, cs, s1) by {
                    if 0 <= s1 < cs.len() {
                        assert(held(angles, cs[s1], Angle::Flat));
                    }
                }
            }
            return Err(Error::BadAngleConstraints);
        }
        proof {
            assert(cs[s as int] == corners@[s as int]@);
            assert(first_corner(angles, cs, s as int));
            let s2 = choose|s2: int| first_corner(angles, cs, s2);
            if s2 < s {
                assert(held(angles, cs[s2], Angle::Flat));
            }
            if s < s2 {
                assert(held(angles, cs[s as int], Angle::Flat));
            }
        }
        let mut out: Vec<(Dart, Span)> = Vec::new();
        let mut current: Dart = corners[s];
        let mut acc: Span = 0;
        let mut t: usize = 0;
        let ghost mut cur: int = 0;
        proof {
            assert(pairs(out@) =~= Seq::<(int, int)>::empty());
            assert(spans(out@) =~= Seq::<int>::empty());
            reveal_with_fuel(effective, 2);
        }
        while t < n
            invariant
                self.wf(),
                g == self.g@,
                lengths == self.edge_lengths@,
                angles == self.angle_constraints@,
                n == corners@.len(),
                cs == dart_seq(corners@),
                s < n,
                t <= n,
                0 <= cur <= t,
                t == n ==> cur == n,
                cur < n ==> current@ == round(cs, s as int, cur),
                forall|k: int| 0 <= k < n ==> g.has_dart(#[trigger] corners@[k]@),
                !held(angles, cs[s as int], Angle::Flat),
                t < n ==> effective(g, lengths, angles, cs, s as int, t + 1) == pairs(out@).push(
                    (current@, run_after(g, lengths, angles, cs, s as int, cur)),
                ),
                t == n ==> effective(g, lengths, angles, cs, s as int, n as int) == pairs(out@),
                t < n ==> run_after(g, lengths, angles, cs, s as int, cur) == acc + run_after(
                    g,
                    lengths,
                    angles,
                    cs,
                    s as int,
                    t as int,
                ),
                mass(spans(out@)) + abs(acc as int) <= t * 0x8000_0000,
                out@.len() <= t,
            decreases n - t,
        {
            let at: usize = if t + 1 >= n - s {
                t + 1 - (n - s)
            } else {
                s + (t + 1)
            };
            let a: Dart = corners[at];
            proof {
                assert(a@ == round(cs, s as int, t + 1)) by {
                    assert(cs[at as int] == corners@[at as int]@);
                }
            }
            let length: Length = self.edge_length(a);
            let flat: bool = self.is_flat(a);
            let ghost acc0 = acc as int;
            proof {
                assert(0x8000_0000 * (t + 1) <= 0x8000_0000 * 0x1_0000_0000_0000_0000) by (nonlinear_arith)
                    requires
                        t + 1 <= 0x1_0000_0000_0000_0000,
                ;
                assert(t * 0x8000_0000 + 0x8000_0000 == (t + 1) * 0x8000_0000) by (nonlinear_arith);
                crate::sums::lemma_mass_nonnegative(spans(out@));
            }
            acc = acc + (length as Span);
            if !flat {
                proof {
                    assert(spans(out@.push((current, acc))) =~= spans(out@).push(acc as int));
                    lemma_mass_push(spans(out@), acc as int);
                    assert(pairs(out@.push((current, acc))) =~= pairs(out@).push(
                        (current@, acc as int),
                    ));
                }
                out.push((current, acc));
                current = a;
                acc = 0;
                proof {
                    cur = t + 1;
                }
            }
            t += 1;
        }
        if out.len() % 2 != 0 {
            return Err(Error::BadAngleConstraints);
        }
        proof {
            lemma_effective(g, lengths, angles, cs, s as int, n as int);
            let eff = effective(g, lengths, angles, cs, s as int, n as int);
            let pl = places(angles, cs, s as int, n as int);
            assert forall|k: int| 0 <= k < out@.len() implies listed(
                g.turn(face@),
                (#[trigger] out@[k]).0@,
            ) && !held(angles, out@[k].0@, Angle::Flat) by {
                assert(pairs(out@)[k].0 == out@[k].0@);
                assert(cs[wrap(n as int, s + pl[k])] == eff[k].0);
            }
            assert forall|x: int| #[trigger] listed(cs, x) && !held(angles, x, Angle::Flat) implies exists|
                k: int,
            | 0 <= k < out@.len() && (#[trigger] out@[k]).0@ == x by {
                let i = choose|i: int| 0 <= i < cs.len() && #[trigger] cs[i] == x;
                let u = if i >= s {
                    i - s
                } else {
                    i - s + n
                };
                assert(round(cs, s as int, u) == x);
                assert(listed(pl, u));
                let k = choose|k: int| 0 <= k < pl.len() && #[trigger] pl[k] == u;
                assert(pairs(out@)[k].0 == out@[k].0@);
            }
            assert forall|k1: int, k2: int| 0 <= k1 < k2 < out@.len() implies (#[trigger] out@[k1]).0@
                != (#[trigger] out@[k2]).0@ by {
                assert(pairs(out@)[k1].0 == out@[k1].0@);
                assert(pairs(out@)[k2].0 == out@[k2].0@);
                assert(pl[k1] < pl[k2]);
                let i1 = wrap(n as int, s + pl[k1]);
                let i2 = wrap(n as int, s + pl[k2]);
                if i1 < i2 {
                    assert(cs[i1] != cs[i2]);
                } else {
                    assert(cs[i2] != cs[i1]);
                }
            }
            assert(0 <= 0 < n && !held(angles, round(cs, s as int, 0), Angle::Flat));
            assert(listed(pl, 0));
            assert(out@.len() >= 1);
            assert(0x8000_0000 * n <= 0x8000_0000 * 0x1_0000_0000_0000_0000) by (nonlinear_arith)
                requires
                    n <= 0x1_0000_0000_0000_0000,
            ;
        }
        Ok(out)
    }

    /// Whether nothing but a flat angle is allowed at a dart.
    fn is_flat(&self, a: Dart) -> (r: bool)
        ensures
            r == held(self.angle_constraints@, a@, Angle::Flat),
    {
        match self.angle_constraints.get(&a.0) {
            Some(x) => *x == Angle::Flat,
            None => false,
        }
    }

    /// The length of the edge of a dart.
    fn edge_length(&self, a: Dart) -> (r: Length)
        requires
            self.wf(),
            self.g@.has_dart(a@),
        ensures
            r == edge_len(self.g@, self.edge_lengths@, a@),
    {
        let m = self.reprs.get_or_search(&self.g, Alphas::edge(), a);
        proof {
            self.g@.lemma_min_unique(Alphas::edge(), a@, m@, self.g@.edge_of(a@));
            assert(m@ as usize == m.0);
        }
        match self.edge_lengths.get(&m.0) {
            Some(l) => *l,
            None => 0,
        }
    }

    /// The test of Kawasaki and Justin on the effective lengths round a
    /// face: they are even in number and, signed in turn, add up to zero.
    pub fn check_kawasaki(lens: &Vec<(Dart, Span)>) -> (r: Result<(), Error>)
        requires
            mass(spans(lens@)) <= mass_bound(),
        ensures
            match r {
                Ok(_) => lens@.len() % 2 == 0 && alt_sum(spans(lens@)) == 0,
                Err(Error::KawasakiViolation) => lens@.len() % 2 != 0 || alt_sum(spans(lens@)) != 0,
                Err(_) => false,
            },
    {
        let mut total: Span = 0;
        let mut positive: bool = true;
        let mut k: usize = 0;
        let ghost l = spans(lens@);
        proof {
            assert(l.take(0) =~= Seq::<int>::empty());
        }
        while k < lens.len()
            invariant
                k <= lens@.len(),
                l == spans(lens@),
                mass(l) <= mass_bound(),
                positive == (k % 2 == 0),
                total == alt_sum(l.take(k as int)),
            decreases lens@.len() - k,
        {
            proof {
                assert(l.take(k + 1) =~= l.take(k as int).push(l[k as int]));
                lemma_alt_push(l.take(k as int), l[k as int]);
                lemma_alt_bounded(l.take(k + 1));
                assert(l =~= l.take(k + 1) + l.skip(k + 1));
                lemma_mass_concat(l.take(k + 1), l.skip(k + 1));
                crate::sums::lemma_mass_nonnegative(l.skip(k + 1));
            }
            let length: Span = lens[k].1;
            if positive {
                total = total + length;
            } else {
                total = total - length;
            }
            positive = !positive;
            k += 1;
        }
        proof {
            assert(l.take(k as int) =~= l);
        }
        if !positive {
            return Err(Error::KawasakiViolation);
        }
        if total == 0 {
            Ok(())
        } else {
            Err(Error::KawasakiViolation)
        }
    }
}

/// The dart `a` stands for an angle that is not flat: it is the lower dart
/// of its angle, the one that points counter-clockwise.
pub open spec fn corner(g: GMapView, angles: Map<usize, Angle>, a: int) -> bool {
    g.has_dart(a) && g.ccw(a) && !held(angles, a, Angle::Flat)
}

/// Every angle that has a dart of the clauses is an angle that is not flat,
/// its dart stands at an even place of a blue clause, and no two angles
/// have the same dart.
pub open spec fn keyed(g: GMapView, angles: Map<usize, Angle>, c: ConstraintsView) -> bool {
    &&& forall|a: usize| #[trigger]
        c.angle_to_cg.contains_key(a) ==> corner(g, angles, a as int) && c.angle_dart(
            c.angle_to_cg[a]@,
        )
    &&& forall|a: usize, b: usize|
        c.angle_to_cg.contains_key(a) && c.angle_to_cg.contains_key(b) && a != b ==> (
        #[trigger] c.angle_to_cg[a])@ != (#[trigger] c.angle_to_cg[b])@
}

/// The clauses when the vertices below `vb` have theirs: the angles that are
/// not flat at those vertices have their darts, nothing is joined yet, and
/// every dart is a side of the variable of an angle.
pub open spec fn vertex_stage(g: GMapView, angles: Map<usize, Angle>, c: ConstraintsView, vb: int) -> bool {
    &&& c.wf()
    &&& keyed(g, angles, c)
    &&& forall|a: int| #[trigger]
        corner(g, angles, a) && g.vertex_of(a) < vb ==> c.angle_to_cg.contains_key(a as usize)
    &&& forall|a: usize| #[trigger] c.angle_to_cg.contains_key(a) ==> g.vertex_of(a as int) < vb
    &&& forall|d: int| c.cg.has_dart(d) ==> #[trigger] c.cg.is_free(d, 0)
    &&& forall|d: int| c.cg.has_dart(d) ==> #[trigger] sided(g, c, 0, d)
}

/// The dart `d` is a side of the variable of an angle of a face from `fb`
/// on.
pub open spec fn sided(g: GMapView, c: ConstraintsView, fb: int, d: int) -> bool {
    exists|a: usize|
        c.angle_to_cg.contains_key(a) && g.face_of(a as int) >= fb && #[trigger] c.side_of(
            c.angle_to_cg[a]@,
            d,
        )
}

/// The clauses when the faces below `fb` have theirs: every angle that is
/// not flat has its dart; a dart that is free is a side of the variable of
/// an angle of a face from `fb` on, and both sides of such a variable are
/// free.
pub open spec fn face_stage(g: GMapView, angles: Map<usize, Angle>, c: ConstraintsView, fb: int) -> bool {
    &&& c.wf()
    &&& keyed(g, angles, c)
    &&& forall|a: int| #[trigger] corner(g, angles, a) ==> c.angle_to_cg.contains_key(a as usize)
    &&& forall|d: int| c.cg.has_dart(d) && c.cg.is_free(d, 0) ==> #[trigger] sided(g, c, fb, d)
    &&& forall|a: usize|
        c.angle_to_cg.contains_key(a) && g.face_of(a as int) >= fb ==> #[trigger] c.unglued(
            c.angle_to_cg[a]@,
        )
}

/// The darts of the angles, with those of the first `i` angles of `nf`: the
/// darts of the clause that starts at `start`, counter-clockwise.
pub open spec fn with_angles(
    m: Map<usize, Dart>,
    nf: Seq<Dart>,
    start: int,
    k: int,
    i: int,
) -> Map<usize, Dart>
    decreases i,
{
    if i <= 0 {
        m
    } else {
        with_angles(m, nf, start, k, i - 1).insert(nf[i - 1].0, Dart(place(start, k, i - 1) as usize))
    }
}

/// What `with_angles` holds.
pub proof fn lemma_with_angles(m: Map<usize, Dart>, nf: Seq<Dart>, start: int, k: int, i: int)
    requires
        0 <= i <= nf.len(),
        forall|j1: int, j2: int| 0 <= j1 < j2 < nf.len() ==> nf[j1] != nf[j2],
        forall|j: int| 0 <= j < nf.len() ==> !m.contains_key(#[trigger] nf[j].0),
    ensures
        forall|a: usize| #[trigger]
            m.contains_key(a) ==> with_angles(m, nf, start, k, i).contains_key(a) && with_angles(
                m,
                nf,
                start,
                k,
                i,
            )[a] == m[a],
        forall|j: int|
            0 <= j < i ==> with_angles(m, nf, start, k, i).contains_key(#[trigger] nf[j].0)
                && with_angles(m, nf, start, k, i)[nf[j].0] == Dart(place(start, k, j) as usize),
        forall|a: usize| #[trigger]
            with_angles(m, nf, start, k, i).contains_key(a) ==> m.contains_key(a) || exists|j: int|
                0 <= j < i && #[trigger] nf[j].0 == a,
    decreases i,
{
    if i > 0 {
        lemma_with_angles(m, nf, start, k, i - 1);
        let w0 = with_angles(m, nf, start, k, i - 1);
        let w = with_angles(m, nf, start, k, i);
        assert forall|j: int| 0 <= j < i implies w.contains_key(#[trigger] nf[j].0) && w[nf[j].0]
            == Dart(place(start, k, j) as usize) by {
            if j < i - 1 {
                assert(nf[j] != nf[i - 1]);
                assert(w0.contains_key(nf[j].0));
            }
        }
        assert forall|a: usize| #[trigger] w.contains_key(a) implies m.contains_key(a) || exists|
            j: int,
        |
            0 <= j < i && #[trigger] nf[j].0 == a by {
            if a == nf[i - 1].0 {
            } else {
                assert(w0.contains_key(a));
                if !m.contains_key(a) {
                    let j = choose|j: int| 0 <= j < i - 1 && #[trigger] nf[j].0 == a;
                    assert(0 <= j < i && nf[j].0 == a);
                }
            }
        }
    }
}

/// `nf` lists the darts of `xs` that are not held flat, in their order.
pub open spec fn sifted(angles: Map<usize, Angle>, xs: Seq<int>, nf: Seq<Dart>, idx: Seq<int>) -> bool {
    &&& idx.len() == nf.len()
    &&& forall|j: int|
        0 <= j < nf.len() ==> 0 <= #[trigger] idx[j] < xs.len() && nf[j]@ == xs[idx[j]] && !held(
            angles,
            nf[j]@,
            Angle::Flat,
        )
    &&& forall|j1: int, j2: int| 0 <= j1 < j2 < nf.len() ==> #[trigger] idx[j1] < #[trigger] idx[j2]
}

/// The clause of a vertex was made: `c2` is `c0` with a blue clause for the
/// vertex, and a dart of it for each of the angles `nf` of the vertex that
/// are not flat.
pub open spec fn vertex_made(
    g: GMapView,
    angles: Map<usize, Angle>,
    c0: ConstraintsView,
    c2: ConstraintsView,
    vertex: int,
    xs: Seq<int>,
    nf: Seq<Dart>,
    idx: Seq<int>,
) -> bool {
    &&& g.sound()
    &&& g.closed_oriented()
    &&& g.is_vertex(vertex)
    &&& g.is_turn(g.vertex_step(), vertex, xs)
    &&& vertex_stage(g, angles, c0, vertex)
    &&& sifted(angles, xs, nf, idx)
    &&& forall|x: int| 0 <= x < xs.len() && !held(angles, #[trigger] xs[x], Angle::Flat) ==> listed(idx, x)
    &&& nf.len() >= 1
    &&& c2.cg.ndarts() <= usize::MAX
    &&& c2.wf()
    &&& c2 == (ConstraintsView {
        angle_to_cg: with_angles(c0.angle_to_cg, nf, c0.cg.ndarts(), nf.len() as int, nf.len() as int),
        ..c0.with_clause(nf.len() as int, Color::Blue, 1)
    })
}

/// The angles of a vertex that are not flat, and their new darts.
pub proof fn lemma_vertex_angles(
    g: GMapView,
    angles: Map<usize, Angle>,
    c0: ConstraintsView,
    c2: ConstraintsView,
    vertex: int,
    xs: Seq<int>,
    nf: Seq<Dart>,
    idx: Seq<int>,
)
    requires
        vertex_made(g, angles, c0, c2, vertex, xs, nf, idx),
    ensures
        forall|j: int|
            0 <= j < nf.len() ==> corner(g, angles, #[trigger] nf[j]@) && g.vertex_of(nf[j]@)
                == vertex && nf[j]@ == nf[j].0 && !c0.angle_to_cg.contains_key(nf[j].0),
        forall|j: int|
            0 <= j < nf.len() ==> c2.angle_to_cg.contains_key(#[trigger] nf[j].0)
                && c2.angle_to_cg[nf[j].0]@ == place(c0.cg.ndarts(), nf.len() as int, j),
        forall|a: usize| #[trigger]
            c0.angle_to_cg.contains_key(a) ==> c2.angle_to_cg.contains_key(a) && c2.angle_to_cg[a]
                == c0.angle_to_cg[a],
        forall|a: usize| #[trigger]
            c2.angle_to_cg.contains_key(a) ==> c0.angle_to_cg.contains_key(a) || exists|j: int|
                0 <= j < nf.len() && #[trigger] nf[j].0 == a,
        forall|j: int|
            0 <= j < nf.len() ==> c2.angle_dart(#[trigger] place(c0.cg.ndarts(), nf.len() as int, j))
                && c0.cg.ndarts() <= place(c0.cg.ndarts(), nf.len() as int, j) < c0.cg.ndarts() + 2
                * nf.len(),
        forall|j1: int, j2: int| 0 <= j1 < j2 < nf.len() ==> nf[j1] != nf[j2],
{
    let k = nf.len() as int;
    let start = c0.cg.ndarts();
    let c1 = c0.with_clause(k, Color::Blue, 1);
    c0.lemma_with_clause(k, Color::Blue, 1);
    g.lemma_turn_distinct(g.vertex_step(), vertex, xs);
    assert forall|j: int| 0 <= j < nf.len() implies corner(g, angles, #[trigger] nf[j]@)
        && g.vertex_of(nf[j]@) == vertex && nf[j]@ == nf[j].0 && !c0.angle_to_cg.contains_key(
        nf[j].0,
    ) by {
        let x = idx[j];
        assert(xs[x] == iterate(g.vertex_step(), x as nat, vertex));
        g.lemma_turn_has_dart(2, 1, vertex, x as nat);
        assert(listed(xs, nf[j]@));
        g.lemma_turn_covers(Alphas::vertex(), 2, 1, vertex, xs, nf[j]@);
    }
    assert forall|j1: int, j2: int| 0 <= j1 < j2 < nf.len() implies nf[j1] != nf[j2] by {
        assert(idx[j1] < idx[j2]);
        assert(xs[idx[j1]] != xs[idx[j2]]);
    }
    assert forall|j: int| 0 <= j < nf.len() implies !c0.angle_to_cg.contains_key(
        #[trigger] nf[j].0,
    ) by {
        assert(corner(g, angles, nf[j]@));
    }
    lemma_with_angles(c0.angle_to_cg, nf, start, k, k);
    assert(c2.cg.ndarts() == start + 2 * k);
    assert forall|j: int| 0 <= j < k implies c2.angle_dart(#[trigger] place(start, k, j)) && start
        <= place(start, k, j) < start + 2 * k by {
        let d = place(start, k, j);
        assert(c1.home[d] == start);
    }
}

/// After the clause of a vertex is made, every angle that has a dart is an
/// angle that is not flat, and no two have the same dart.
pub proof fn lemma_vertex_keyed(
    g: GMapView,
    angles: Map<usize, Angle>,
    c0: ConstraintsView,
    c2: ConstraintsView,
    vertex: int,
    xs: Seq<int>,
    nf: Seq<Dart>,
    idx: Seq<int>,
)
    requires
        vertex_made(g, angles, c0, c2, vertex, xs, nf, idx),
    ensures
        keyed(g, angles, c2),
{
    let k = nf.len() as int;
    let start = c0.cg.ndarts();
    let c1 = c0.with_clause(k, Color::Blue, 1);
    let w = c2.angle_to_cg;
    c0.lemma_with_clause(k, Color::Blue, 1);
    lemma_vertex_angles(g, angles, c0, c2, vertex, xs, nf, idx);
    assert forall|a: usize| #[trigger] w.contains_key(a) implies corner(g, angles, a as int)
        && c2.angle_dart(w[a]@) by {
        if c0.angle_to_cg.contains_key(a) {
            let d = c0.angle_to_cg[a]@;
            assert(c0.angle_dart(d));
            assert(c1.home[d] == c0.home[d]);
        } else {
            let j = choose|j: int| 0 <= j < k && #[trigger] nf[j].0 == a;
            assert(corner(g, angles, nf[j]@));
            assert(c2.angle_dart(place(start, k, j)));
        }
    }
    assert forall|a: usize, b: usize|
        w.contains_key(a) && w.contains_key(b) && a != b implies (#[trigger] w[a])@ != (
    #[trigger] w[b])@ by {
        let in_a = c0.angle_to_cg.contains_key(a);
        let in_b = c0.angle_to_cg.contains_key(b);
        if in_a {
            assert(c0.angle_dart(c0.angle_to_cg[a]@));
        }
        if in_b {
            assert(c0.angle_dart(c0.angle_to_cg[b]@));
        }
        if !in_a {
            let j = choose|j: int| 0 <= j < k && #[trigger] nf[j].0 == a;
            assert(c2.angle_dart(place(start, k, j)));
            if !in_b {
                let j2 = choose|j2: int| 0 <= j2 < k && #[trigger] nf[j2].0 == b;
                assert(c2.angle_dart(place(start, k, j2)));
            }
        } else if !in_b {
            let j2 = choose|j2: int| 0 <= j2 < k && #[trigger] nf[j2].0 == b;
            assert(c2.angle_dart(place(start, k, j2)));
        }
    }
}

/// After the clause of a vertex is made, the vertices up to it have theirs.
pub proof fn lemma_vertex_done(
    g: GMapView,
    angles: Map<usize, Angle>,
    c0: ConstraintsView,
    c2: ConstraintsView,
    vertex: int,
    xs: Seq<int>,
    nf: Seq<Dart>,
    idx: Seq<int>,
)
    requires
        vertex_made(g, angles, c0, c2, vertex, xs, nf, idx),
    ensures
        vertex_stage(g, angles, c2, vertex + 1),
{
    let k = nf.len() as int;
    let start = c0.cg.ndarts();
    let c1 = c0.with_clause(k, Color::Blue, 1);
    let w = c2.angle_to_cg;
    c0.lemma_with_clause(k, Color::Blue, 1);
    lemma_vertex_angles(g, angles, c0, c2, vertex, xs, nf, idx);
    lemma_vertex_keyed(g, angles, c0, c2, vertex, xs, nf, idx);
    assert forall|a: int| #[trigger] corner(g, angles, a) && g.vertex_of(a) < vertex + 1 implies w.contains_key(
        a as usize,
    ) by {
        if g.vertex_of(a) < vertex {
            assert(c0.angle_to_cg.contains_key(a as usize));
        } else {
            g.lemma_turn_covers(Alphas::vertex(), 2, 1, vertex, xs, a);
            let x = choose|x: int| 0 <= x < xs.len() && #[trigger] xs[x] == a;
            assert(listed(idx, x));
            let j = choose|j: int| 0 <= j < idx.len() && #[trigger] idx[j] == x;
            assert(nf[j]@ == a);
            assert(w.contains_key(nf[j].0));
        }
    }
    assert forall|a: usize| #[trigger] w.contains_key(a) implies g.vertex_of(a as int) < vertex
        + 1 by {
        if !c0.angle_to_cg.contains_key(a) {
            let j = choose|j: int| 0 <= j < k && #[trigger] nf[j].0 == a;
            assert(g.vertex_of(nf[j]@) == vertex);
        }
    }
    assert forall|d: int| c2.cg.has_dart(d) implies #[trigger] c2.cg.is_free(d, 0) by {
        if d < start {
            assert(c0.cg.is_free(d, 0));
            assert(c1.cg.al(d, 0) == c0.cg.al(d, 0));
        } else {
            assert(c1.home[d] == start);
        }
    }
    lemma_vertex_sides(g, angles, c0, c2, vertex, xs, nf, idx);
}

/// After the clause of a vertex is made, every dart is a side of the
/// variable of an angle.
pub proof fn lemma_vertex_sides(
    g: GMapView,
    angles: Map<usize, Angle>,
    c0: ConstraintsView,
    c2: ConstraintsView,
    vertex: int,
    xs: Seq<int>,
    nf: Seq<Dart>,
    idx: Seq<int>,
)
    requires
        vertex_made(g, angles, c0, c2, vertex, xs, nf, idx),
    ensures
        forall|d: int| c2.cg.has_dart(d) ==> #[trigger] sided(g, c2, 0, d),
{
    let k = nf.len() as int;
    let start = c0.cg.ndarts();
    let c1 = c0.with_clause(k, Color::Blue, 1);
    let w = c2.angle_to_cg;
    c0.lemma_with_clause(k, Color::Blue, 1);
    lemma_vertex_angles(g, angles, c0, c2, vertex, xs, nf, idx);
    assert forall|d: int| c2.cg.has_dart(d) implies #[trigger] sided(g, c2, 0, d) by {
        if d < start {
            assert(sided(g, c0, 0, d));
            let a = choose|a: usize|
                c0.angle_to_cg.contains_key(a) && g.face_of(a as int) >= 0 && #[trigger] c0.side_of(
                    c0.angle_to_cg[a]@,
                    d,
                );
            let e = c0.angle_to_cg[a]@;
            assert(c0.angle_dart(e));
            assert(c1.cg.al(e, 2) == c0.cg.al(e, 2));
            assert(w.contains_key(a) && w[a] == c0.angle_to_cg[a]);
            assert(c2.side_of(w[a]@, d));
        } else {
            let t = d - start;
            assert(c1.home[d] == start);
            assert(c1.cg.al(d, 2) == chain_image(start, k, 1, 2, true, t, 2));
            let j = if t == 0 || t == 2 * k - 1 {
                0
            } else if t % 2 == 0 {
                (2 * k - t) / 2
            } else {
                (2 * k - t - 1) / 2
            };
            let e = place(start, k, j);
            assert(0 <= j < k);
            assert(c2.angle_dart(e));
            assert(c1.cg.al(e, 2) == chain_image(start, k, 1, 2, true, e - start, 2));
            assert(w.contains_key(nf[j].0) && w[nf[j].0]@ == e);
            assert(c2.side_of(w[nf[j].0]@, d));
            assert(corner(g, angles, nf[j]@));
            g.lemma_least(Alphas::face(), nf[j]@);
        }
    }
}

/// A vertex whose angles are all flat gets no clause.
pub proof fn lemma_vertex_skipped(
    g: GMapView,
    angles: Map<usize, Angle>,
    c0: ConstraintsView,
    vertex: int,
    xs: Seq<int>,
)
    requires
        g.sound(),
        g.closed_oriented(),
        g.is_vertex(vertex),
        g.is_turn(g.vertex_step(), vertex, xs),
        vertex_stage(g, angles, c0, vertex),
        forall|x: int| 0 <= x < xs.len() ==> held(angles, #[trigger] xs[x], Angle::Flat),
    ensures
        vertex_stage(g, angles, c0, vertex + 1),
{
    assert forall|a: int| #[trigger] corner(g, angles, a) && g.vertex_of(a) < vertex + 1 implies c0.angle_to_cg.contains_key(
        a as usize,
    ) by {
        if g.vertex_of(a) == vertex {
            g.lemma_turn_covers(Alphas::vertex(), 2, 1, vertex, xs, a);
            let x = choose|x: int| 0 <= x < xs.len() && #[trigger] xs[x] == a;
            assert(held(angles, xs[x], Angle::Flat));
        }
    }
}

/// The clauses of one face were made: `c2` is `c0` with the red clauses of
/// the face `face`, joined to the darts `corners` of its angles `lens` that
/// are not flat.
pub open spec fn face_made(
    g: GMapView,
    angles: Map<usize, Angle>,
    c0: ConstraintsView,
    face: int,
    xs: Seq<int>,
    lens: Seq<(Dart, Span)>,
    corners: Seq<Dart>,
) -> bool {
    &&& g.sound()
    &&& g.closed_oriented()
    &&& g.is_face(face)
    &&& g.is_turn(g.face_step(), face, xs)
    &&& face_stage(g, angles, c0, face)
    &&& corners.len() == lens.len()
    &&& forall|k: int|
        0 <= k < lens.len() ==> listed(xs, (#[trigger] lens[k]).0@) && !held(
            angles,
            lens[k].0@,
            Angle::Flat,
        )
    &&& forall|x: int| #[trigger]
        listed(xs, x) && !held(angles, x, Angle::Flat) ==> exists|k: int|
            0 <= k < lens.len() && (#[trigger] lens[k]).0@ == x
    &&& forall|k1: int, k2: int|
        0 <= k1 < k2 < lens.len() ==> (#[trigger] lens[k1]).0@ != (#[trigger] lens[k2]).0@
    &&& forall|k: int|
        0 <= k < lens.len() ==> c0.angle_to_cg.contains_key((#[trigger] lens[k]).0.0)
            && corners[k] == c0.angle_to_cg[lens[k].0.0]
}

/// The angles of a face that are not flat have darts that wait to be
/// joined.
pub proof fn lemma_face_ready(
    g: GMapView,
    angles: Map<usize, Angle>,
    c0: ConstraintsView,
    face: int,
    xs: Seq<int>,
    lens: Seq<(Dart, Span)>,
    k: int,
)
    requires
        g.sound(),
        g.closed_oriented(),
        g.is_face(face),
        g.is_turn(g.face_step(), face, xs),
        face_stage(g, angles, c0, face),
        0 <= k < lens.len(),
        listed(xs, lens[k].0@),
        !held(angles, lens[k].0@, Angle::Flat),
    ensures
        corner(g, angles, lens[k].0@),
        g.face_of(lens[k].0@) == face,
        c0.angle_to_cg.contains_key(lens[k].0.0),
        c0.waiting(c0.angle_to_cg[lens[k].0.0]@),
{
    let a = lens[k].0@;
    let i = choose|i: int| 0 <= i < xs.len() && #[trigger] xs[i] == a;
    assert(xs[i] == iterate(g.face_step(), i as nat, face));
    g.lemma_turn_has_dart(1, 0, face, i as nat);
    g.lemma_turn_covers(Alphas::face(), 1, 0, face, xs, a);
    assert(corner(g, angles, a));
    assert(c0.angle_to_cg.contains_key(a as usize));
}

/// What making the red clauses of a face does to the clauses: the darts of
/// its corners are joined up, nothing else that was free is joined, and no
/// new dart is free.
pub open spec fn face_joined(c0: ConstraintsView, c2: ConstraintsView, corners: Seq<Dart>) -> bool {
    &&& c2.wf()
    &&& c2.extends(c0)
    &&& forall|s: int| 0 <= s < corners.len() ==> c2.joined_up(#[trigger] corners[s]@)
    &&& forall|d: int|
        c0.cg.has_dart(d) && c0.cg.is_free(d, 0) && !c2.cg.is_free(d, 0) ==> exists|s: int|
            0 <= s < corners.len() && #[trigger] c0.side_of(corners[s]@, d)
    &&& forall|d: int| c0.cg.ndarts() <= d < c2.cg.ndarts() ==> !#[trigger] c2.cg.is_free(d, 0)
}

/// After the clauses of a face are made, a dart that is free is a side of
/// the variable of an angle of a later face.
pub proof fn lemma_face_free(
    g: GMapView,
    angles: Map<usize, Angle>,
    c0: ConstraintsView,
    c2: ConstraintsView,
    face: int,
    xs: Seq<int>,
    lens: Seq<(Dart, Span)>,
    corners: Seq<Dart>,
    d: int,
)
    requires
        face_made(g, angles, c0, face, xs, lens, corners),
        face_joined(c0, c2, corners),
        c2.cg.has_dart(d),
        c2.cg.is_free(d, 0),
    ensures
        sided(g, c2, face + 1, d),
{
    let w = c0.angle_to_cg;
    assert(d < c0.cg.ndarts());
    assert(c2.home[d] == c0.home[d]);
    assert(c0.cg.is_free(d, 0));
    assert(sided(g, c0, face, d));
    let a = choose|a: usize|
        w.contains_key(a) && g.face_of(a as int) >= face && #[trigger] c0.side_of(w[a]@, d);
    let e = w[a]@;
    assert(c0.angle_dart(e));
    assert(c2.home[e] == c0.home[e]);
    assert(c2.cg.al(e, 2) == c0.cg.al(e, 2));
    assert(c2.side_of(w[a]@, d));
    if g.face_of(a as int) == face {
        assert(corner(g, angles, a as int));
        g.lemma_turn_covers(Alphas::face(), 1, 0, face, xs, a as int);
        let k = choose|k: int| 0 <= k < lens.len() && (#[trigger] lens[k]).0@ == a as int;
        assert(lens[k].0.0 == a);
        assert(corners[k] == w[a]);
        assert(c2.joined_up(corners[k]@));
        assert(false);
    }
}

/// After the clauses of a face are made, the variable of an angle of a
/// later face is free on both sides.
pub proof fn lemma_face_waiting(
    g: GMapView,
    angles: Map<usize, Angle>,
    c0: ConstraintsView,
    c2: ConstraintsView,
    face: int,
    xs: Seq<int>,
    lens: Seq<(Dart, Span)>,
    corners: Seq<Dart>,
    a: usize,
)
    requires
        face_made(g, angles, c0, face, xs, lens, corners),
        face_joined(c0, c2, corners),
        c0.angle_to_cg.contains_key(a),
        g.face_of(a as int) >= face + 1,
    ensures
        c2.unglued(c0.angle_to_cg[a]@),
{
    let w = c0.angle_to_cg;
    let e = w[a]@;
    assert(c0.angle_dart(e));
    assert(c0.unglued(e));
    c0.lemma_other_side(e);
    let x = c0.cg.al(e, 2);
    assert(c2.home[e] == c0.home[e]);
    assert(c2.cg.al(e, 2) == x);
    assert forall|s: int| 0 <= s < corners.len() implies !(#[trigger] c0.side_of(corners[s]@, e)) by {
        lemma_face_ready(g, angles, c0, face, xs, lens, s);
        let b = lens[s].0.0;
        assert(corners[s] == w[b]);
        assert(b != a);
        assert(w[a]@ != w[b]@);
        c0.lemma_other_side(w[b]@);
    }
    assert forall|s: int| 0 <= s < corners.len() implies !(#[trigger] c0.side_of(corners[s]@, x)) by {
        lemma_face_ready(g, angles, c0, face, xs, lens, s);
        let b = lens[s].0.0;
        assert(corners[s] == w[b]);
        assert(b != a);
        assert(w[a]@ != w[b]@);
        c0.lemma_other_side(w[b]@);
    }
    if !c2.cg.is_free(e, 0) {
        let s = choose|s: int| 0 <= s < corners.len() && #[trigger] c0.side_of(corners[s]@, e);
        assert(false);
    }
    if !c2.cg.is_free(x, 0) {
        let s = choose|s: int| 0 <= s < corners.len() && #[trigger] c0.side_of(corners[s]@, x);
        assert(false);
    }
}

/// After the clauses of a face are made, the faces up to it have theirs.
pub proof fn lemma_face_done(
    g: GMapView,
    angles: Map<usize, Angle>,
    c0: ConstraintsView,
    c2: ConstraintsView,
    face: int,
    xs: Seq<int>,
    lens: Seq<(Dart, Span)>,
    corners: Seq<Dart>,
)
    requires
        face_made(g, angles, c0, face, xs, lens, corners),
        face_joined(c0, c2, corners),
    ensures
        face_stage(g, angles, c2, face + 1),
{
    let w = c0.angle_to_cg;
    assert(keyed(g, angles, c2)) by {
        assert forall|a: usize| #[trigger] w.contains_key(a) implies corner(g, angles, a as int)
            && c2.angle_dart(w[a]@) by {
            let d = w[a]@;
            assert(c0.angle_dart(d));
            assert(c2.home[d] == c0.home[d]);
        }
    }
    assert forall|d: int| c2.cg.has_dart(d) && c2.cg.is_free(d, 0) implies #[trigger] sided(
        g,
        c2,
        face + 1,
        d,
    ) by {
        lemma_face_free(g, angles, c0, c2, face, xs, lens, corners, d);
    }
    assert forall|a: usize| w.contains_key(a) && g.face_of(a as int) >= face + 1 implies #[trigger] c2.unglued(
        w[a]@,
    ) by {
        lemma_face_waiting(g, angles, c0, c2, face, xs, lens, corners, a);
    }
}

/// Clauses for the vertices below `b1` are clauses for the vertices below
/// `b2`, where no vertex lies between.
pub proof fn lemma_vertex_lift(
    g: GMapView,
    angles: Map<usize, Angle>,
    c: ConstraintsView,
    b1: int,
    b2: int,
)
    requires
        g.sound(),
        vertex_stage(g, angles, c, b1),
        b1 <= b2,
        forall|v: int| b1 <= v < b2 ==> !#[trigger] g.is_vertex(v),
        forall|d: int| g.has_dart(d) ==> !#[trigger] g.deleted[d],
    ensures
        vertex_stage(g, angles, c, b2),
{
    assert forall|a: int| #[trigger] corner(g, angles, a) && g.vertex_of(a) < b2 implies c.angle_to_cg.contains_key(
        a as usize,
    ) by {
        g.lemma_least(Alphas::vertex(), a);
        let v = g.vertex_of(a);
        assert(!g.deleted[v]);
        assert(g.is_vertex(v));
    }
}

/// Clauses for the faces below `b1` are clauses for the faces below `b2`,
/// where no face lies between.
pub proof fn lemma_face_lift(
    g: GMapView,
    angles: Map<usize, Angle>,
    c: ConstraintsView,
    b1: int,
    b2: int,
)
    requires
        g.sound(),
        face_stage(g, angles, c, b1),
        b1 <= b2,
        forall|f: int| b1 <= f < b2 ==> !#[trigger] g.is_face(f),
        forall|d: int| g.has_dart(d) ==> !#[trigger] g.deleted[d],
    ensures
        face_stage(g, angles, c, b2),
{
    assert forall|a: usize| c.angle_to_cg.contains_key(a) && g.face_of(a as int) >= b1 implies g.face_of(
        a as int,
    ) >= b2 by {
        assert(corner(g, angles, a as int));
        g.lemma_least(Alphas::face(), a as int);
        let f = g.face_of(a as int);
        assert(!g.deleted[f]);
        assert(g.is_face(f));
    }
    assert forall|d: int| c.cg.has_dart(d) && c.cg.is_free(d, 0) implies #[trigger] sided(
        g,
        c,
        b2,
        d,
    ) by {
        assert(sided(g, c, b1, d));
        let a = choose|a: usize|
            c.angle_to_cg.contains_key(a) && g.face_of(a as int) >= b1 && #[trigger] c.side_of(
                c.angle_to_cg[a]@,
                d,
            );
        assert(g.face_of(a as int) >= b2);
    }
    assert forall|a: usize|
        c.angle_to_cg.contains_key(a) && g.face_of(a as int) >= b2 implies #[trigger] c.unglued(
        c.angle_to_cg[a]@,
    ) by {
        assert(g.face_of(a as int) >= b1);
    }
}

/// When every vertex has its clause, the faces can begin.
pub proof fn lemma_faces_begin(g: GMapView, angles: Map<usize, Angle>, c: ConstraintsView)
    requires
        g.sound(),
        vertex_stage(g, angles, c, g.ndarts()),
    ensures
        face_stage(g, angles, c, 0),
{
    assert forall|a: int| #[trigger] corner(g, angles, a) implies c.angle_to_cg.contains_key(
        a as usize,
    ) by {
        g.lemma_least(Alphas::vertex(), a);
    }
    assert forall|a: usize|
        c.angle_to_cg.contains_key(a) && g.face_of(a as int) >= 0 implies #[trigger] c.unglued(
        c.angle_to_cg[a]@,
    ) by {
        let e = c.angle_to_cg[a]@;
        assert(c.angle_dart(e));
        c.lemma_other_side(e);
        assert(c.cg.is_free(e, 0));
        assert(c.cg.is_free(c.cg.al(e, 2), 0));
    }
}

impl GMapView {
    /// The darts round the vertex of `v` that point counter-clockwise,
    /// counter-clockwise from `v`.
    pub open spec fn vertex_turn(self, v: int) -> Seq<int> {
        choose|xs: Seq<int>| self.is_turn(self.vertex_step(), v, xs)
    }

    /// `l` lists the least darts of the live orbits, in increasing order.
    pub open spec fn lists_cells(self, a: Alphas, l: Seq<int>) -> bool {
        &&& forall|k1: int, k2: int| 0 <= k1 < k2 < l.len() ==> l[k1] < l[k2]
        &&& forall|x: int| listed(l, x) <==> self.live(x) && self.is_orbit_min(a, x)
    }

    /// The least darts of the live orbits, in increasing order.
    pub open spec fn cells(self, a: Alphas) -> Seq<int> {
        choose|l: Seq<int>| self.lists_cells(a, l)
    }

    /// The least darts of the live orbits have one list in increasing order.
    pub proof fn lemma_cells(self, a: Alphas, l: Seq<int>)
        requires
            self.lists_cells(a, l),
        ensures
            l == self.cells(a),
    {
        let m = self.cells(a);
        lemma_increasing_unique(l, m);
    }
}

/// Two increasing lists of the same numbers are the same.
pub proof fn lemma_increasing_unique(a: Seq<int>, b: Seq<int>)
    requires
        forall|k1: int, k2: int| 0 <= k1 < k2 < a.len() ==> a[k1] < a[k2],
        forall|k1: int, k2: int| 0 <= k1 < k2 < b.len() ==> b[k1] < b[k2],
        forall|x: int| listed(a, x) <==> listed(b, x),
    ensures
        a == b,
    decreases a.len(),
{
    if a.len() == 0 {
        if b.len() > 0 {
            assert(listed(b, b[0]));
        }
        assert(a =~= b);
    } else if b.len() == 0 {
        assert(listed(a, a[0]));
    } else {
        let x = a[a.len() - 1];
        let y = b[b.len() - 1];
        assert(listed(a, x));
        assert(listed(b, y));
        let i = choose|i: int| 0 <= i < b.len() && #[trigger] b[i] == x;
        let j = choose|j: int| 0 <= j < a.len() && #[trigger] a[j] == y;
        if i < b.len() - 1 {
            assert(b[i] < b[b.len() - 1]);
        }
        if j < a.len() - 1 {
            assert(a[j] < a[a.len() - 1]);
        }
        assert(x == y);
        let a0 = a.drop_last();
        let b0 = b.drop_last();
        assert forall|z: int| listed(a0, z) <==> listed(b0, z) by {
            if listed(a0, z) {
                let k = choose|k: int| 0 <= k < a0.len() && #[trigger] a0[k] == z;
                assert(a[k] == z && a[k] < a[a.len() - 1]);
                assert(listed(a, z));
                let k2 = choose|k2: int| 0 <= k2 < b.len() && #[trigger] b[k2] == z;
                assert(b0[k2] == z);
            }
            if listed(b0, z) {
                let k = choose|k: int| 0 <= k < b0.len() && #[trigger] b0[k] == z;
                assert(b[k] == z && b[k] < b[b.len() - 1]);
                assert(listed(b, z));
                let k2 = choose|k2: int| 0 <= k2 < a.len() && #[trigger] a[k2] == z;
                assert(a0[k2] == z);
            }
        }
        lemma_increasing_unique(a0, b0);
        assert(a =~= a0.push(x));
        assert(b =~= b0.push(y));
    }
}

/// The darts of `xs` that are not held flat, in their order.
pub open spec fn nonflat_of(angles: Map<usize, Angle>, xs: Seq<int>) -> Seq<Dart>
    decreases xs.len(),
{
    if xs.len() == 0 {
        Seq::empty()
    } else {
        let r = nonflat_of(angles, xs.drop_last());
        if held(angles, xs.last(), Angle::Flat) {
            r
        } else {
            r.push(Dart(xs.last() as usize))
        }
    }
}

/// The clauses with the blue clause of the vertex of `v`: a clause of as
/// many variables as the vertex has angles that are not flat, of which one
/// must be a mountain, and a dart of it for each of these angles,
/// counter-clockwise. Nothing is added where every angle is flat.
pub open spec fn vertex_clause(
    g: GMapView,
    angles: Map<usize, Angle>,
    c: ConstraintsView,
    v: int,
) -> ConstraintsView {
    let nf = nonflat_of(angles, g.vertex_turn(v));
    if nf.len() == 0 {
        c
    } else {
        ConstraintsView {
            angle_to_cg: with_angles(
                c.angle_to_cg,
                nf,
                c.cg.ndarts(),
                nf.len() as int,
                nf.len() as int,
            ),
            ..c.with_clause(nf.len() as int, Color::Blue, 1)
        }
    }
}

/// The clauses with the red clauses of the face of `f`: those of the shrink
/// procedure on the effective lengths of its corners that are not flat,
/// joined to the darts of these corners.
pub open spec fn face_clauses(
    g: GMapView,
    lengths: Map<usize, Length>,
    angles: Map<usize, Angle>,
    c: ConstraintsView,
    f: int,
    exterior: bool,
) -> ConstraintsView {
    match face_spans(g, lengths, angles, f) {
        Some(l) => {
            let corners = Seq::new(l.len(), |k: int| c.angle_to_cg[l[k].0 as usize]);
            let plan = shrunk(initial(seconds(l)), exterior);
            planned(c, corners, plan, plan.len() as int).0
        },
        None => c,
    }
}

/// The clauses of the first `t` vertices of `vs`.
#[verifier::opaque]
pub open spec fn after_vertices(
    g: GMapView,
    angles: Map<usize, Angle>,
    vs: Seq<int>,
    t: int,
) -> ConstraintsView
    decreases t,
{
    if t <= 0 {
        ConstraintsView::none()
    } else {
        vertex_clause(g, angles, after_vertices(g, angles, vs, t - 1), vs[t - 1])
    }
}

/// The clauses `c` with those of the first `u` faces of `fs`.
#[verifier::opaque]
pub open spec fn after_faces(
    g: GMapView,
    lengths: Map<usize, Length>,
    angles: Map<usize, Angle>,
    exterior: int,
    c: ConstraintsView,
    fs: Seq<int>,
    u: int,
) -> ConstraintsView
    decreases u,
{
    if u <= 0 {
        c
    } else {
        face_clauses(
            g,
            lengths,
            angles,
            after_faces(g, lengths, angles, exterior, c, fs, u - 1),
            fs[u - 1],
            fs[u - 1] == exterior,
        )
    }
}

/// How the clauses are made, vertex after vertex and face after face.
pub proof fn lemma_after(
    g: GMapView,
    lengths: Map<usize, Length>,
    angles: Map<usize, Angle>,
    exterior: int,
    c: ConstraintsView,
    l: Seq<int>,
    k: int,
)
    requires
        0 <= k,
    ensures
        after_vertices(g, angles, l, 0) == ConstraintsView::none(),
        after_vertices(g, angles, l, k + 1) == vertex_clause(
            g,
            angles,
            after_vertices(g, angles, l, k),
            l[k],
        ),
        after_faces(g, lengths, angles, exterior, c, l, 0) == c,
        after_faces(g, lengths, angles, exterior, c, l, k + 1) == face_clauses(
            g,
            lengths,
            angles,
            after_faces(g, lengths, angles, exterior, c, l, k),
            l[k],
            l[k] == exterior,
        ),
{
    reveal(after_vertices);
    reveal(after_faces);
}

/// The clauses of a problem: the blue clauses of its vertices, in
/// increasing order of their least darts, and then the red clauses of its
/// faces, in increasing order of theirs.
pub open spec fn built(
    g: GMapView,
    lengths: Map<usize, Length>,
    angles: Map<usize, Angle>,
    exterior: int,
) -> ConstraintsView {
    let vs = g.cells(Alphas::vertex());
    let fs = g.cells(Alphas::face());
    after_faces(
        g,
        lengths,
        angles,
        exterior,
        after_vertices(g, angles, vs, vs.len() as int),
        fs,
        fs.len() as int,
    )
}

/// What the clauses of a problem are: where no face is at fault, clauses
/// in which every angle that is not flat has its dart in a blue clause, and
/// in which every variable is joined on both sides, to one blue clause and
/// to one red one; else the fault of the first face that has one.
pub open spec fn answers(p: &Problem, r: Result<Constraints, Error>) -> bool {
    let g = p.map()@;
    match r {
        Ok(c) => {
            &&& c@ == built(g, p.lengths(), p.angles(), p.exterior()@)
            &&& c@.wf()
            &&& keyed(g, p.angles(), c@)
            &&& forall|a: int| #[trigger]
                corner(g, p.angles(), a) ==> c@.angle_to_cg.contains_key(a as usize)
            &&& forall|d: int| c@.cg.has_dart(d) ==> !#[trigger] c@.cg.is_free(d, 0)
            &&& forall|f: int| #[trigger]
                g.is_face(f) ==> face_fault(g, p.lengths(), p.angles(), f) is None
        },
        Err(e) => exists|f: int|
            {
                &&& #[trigger] g.is_face(f)
                &&& face_fault(g, p.lengths(), p.angles(), f) == Some(e)
                &&& forall|f2: int|
                    f2 < f && #[trigger] g.is_face(f2) ==> face_fault(
                        g,
                        p.lengths(),
                        p.angles(),
                        f2,
                    ) is None
            },
    }
}

impl Problem {
    /// The clauses of the problem: a blue clause for every vertex that has
    /// an angle that is not flat, and the red clauses of every face. The
    /// first face whose angles or lengths cannot fold flat is refused, and
    /// nothing is made.
    pub fn constraint_graph(&self) -> (r: Result<Constraints, Error>)
        requires
            self.wf(),
        ensures
            answers(self, r),
    {
        let ghost g = self.g@;
        let ghost angles = self.angle_constraints@;
        let ghost lengths = self.edge_lengths@;
        let mut constraints = match Constraints::new() {
            Ok(c) => c,
            Err(e) => {
                return Err(Error::GMap(e));
            },
        };
        let vertices = self.g.one_dart_per_cell(0);
        let ghost vs = dart_seq(vertices@);
        let n: usize = self.g.ndarts();
        proof {
            Alphas::lemma_named_cells();
            constraints.lemma_wf();
            g.lemma_cells(Alphas::vertex(), vs);
            lemma_after(g, lengths, angles, self.exterior_face@, constraints@, vs, 0);
            let c = constraints@;
            assert(vertex_stage(g, angles, c, 0)) by {
                assert forall|a: int| #[trigger] corner(g, angles, a) && g.vertex_of(a) < 0 implies c.angle_to_cg.contains_key(
                    a as usize,
                ) by {
                    g.lemma_least(Alphas::vertex(), a);
                }
            }
            let first: int = if vs.len() > 0 {
                vs[0]
            } else {
                n as int
            };
            assert forall|v: int| 0 <= v < first implies !#[trigger] g.is_vertex(v) by {
                if g.is_vertex(v) {
                    assert(listed(vs, v));
                    let i = choose|i: int| 0 <= i < vs.len() && #[trigger] vs[i] == v;
                    if i > 0 {
                        assert(vs[0] < vs[i]);
                    }
                }
            }
            if vs.len() > 0 {
                assert(g.live(vertices@[0]@));
                assert(vs[0] == vertices@[0]@);
            }
            lemma_vertex_lift(g, angles, c, 0, first);
        }
        let mut t: usize = 0;
        while t < vertices.len()
            invariant
                self.wf(),
                g == self.g@,
                angles == self.angle_constraints@,
                n == g.ndarts(),
                constraints.wf(),
                vs == dart_seq(vertices@),
                t <= vertices@.len(),
                forall|k1: int, k2: int| 0 <= k1 < k2 < vs.len() ==> vs[k1] < vs[k2],
                forall|x: int| listed(vs, x) <==> g.is_vertex(x),
                constraints@ == after_vertices(g, angles, vs, t as int),
                vertex_stage(
                    g,
                    angles,
                    constraints@,
                    if t < vs.len() {
                        vs[t as int]
                    } else {
                        n as int
                    },
                ),
            decreases vertices@.len() - t,
        {
            let vertex = vertices[t];
            proof {
                assert(vs[t as int] == vertex@);
                assert(listed(vs, vertex@));
            }
            self.process_vertex(vertex, &mut constraints);
            proof {
                lemma_after(g, lengths, angles, self.exterior_face@, constraints@, vs, t as int);
                let next: int = if t + 1 < vs.len() {
                    vs[t + 1]
                } else {
                    n as int
                };
                assert forall|v: int| vertex@ + 1 <= v < next implies !#[trigger] g.is_vertex(v) by {
                    if g.is_vertex(v) {
                        assert(listed(vs, v));
                        let i = choose|i: int| 0 <= i < vs.len() && #[trigger] vs[i] == v;
                        if i < t {
                            assert(vs[i] < vs[t as int]);
                        }
                        if i > t + 1 {
                            assert(vs[t + 1] < vs[i]);
                        }
                    }
                }
                if t + 1 < vs.len() {
                    assert(vs[t as int] < vs[t + 1]);
                }
                lemma_vertex_lift(g, angles, constraints@, vertex@ + 1, next);
            }
            t += 1;
        }
        let faces = self.g.one_dart_per_cell(2);
        let ghost fs = dart_seq(faces@);
        let ghost blue = constraints@;
        proof {
            g.lemma_cells(Alphas::face(), fs);
            lemma_after(g, lengths, angles, self.exterior_face@, blue, fs, 0);
            lemma_faces_begin(g, angles, constraints@);
            let first: int = if fs.len() > 0 {
                fs[0]
            } else {
                n as int
            };
            assert forall|f: int| 0 <= f < first implies !#[trigger] g.is_face(f) by {
                if g.is_face(f) {
                    assert(listed(fs, f));
                    let i = choose|i: int| 0 <= i < fs.len() && #[trigger] fs[i] == f;
                    if i > 0 {
                        assert(fs[0] < fs[i]);
                    }
                }
            }
            if fs.len() > 0 {
                assert(g.live(faces@[0]@));
                assert(fs[0] == faces@[0]@);
            }
            lemma_face_lift(g, angles, constraints@, 0, first);
        }
        let mut u: usize = 0;
        while u < faces.len()
            invariant
                self.wf(),
                g == self.g@,
                angles == self.angle_constraints@,
                lengths == self.edge_lengths@,
                n == g.ndarts(),
                constraints.wf(),
                fs == dart_seq(faces@),
                u <= faces@.len(),
                forall|k1: int, k2: int| 0 <= k1 < k2 < fs.len() ==> fs[k1] < fs[k2],
                forall|x: int| listed(fs, x) <==> g.is_face(x),
                forall|k: int|
                    0 <= k < u ==> face_fault(g, lengths, angles, #[trigger] fs[k]) is None,
                blue == after_vertices(g, angles, g.cells(Alphas::vertex()), g.cells(
                    Alphas::vertex(),
                ).len() as int),
                fs == g.cells(Alphas::face()),
                constraints@ == after_faces(
                    g,
                    lengths,
                    angles,
                    self.exterior_face@,
                    blue,
                    fs,
                    u as int,
                ),
                face_stage(
                    g,
                    angles,
                    constraints@,
                    if u < fs.len() {
                        fs[u as int]
                    } else {
                        n as int
                    },
                ),
            decreases faces@.len() - u,
        {
            let face = faces[u];
            proof {
                assert(fs[u as int] == face@);
                assert(listed(fs, face@));
            }
            let exterior: bool = face.0 == self.exterior_face.0;
            proof {
                lemma_after(g, lengths, angles, self.exterior_face@, blue, fs, u as int);
            }
            match self.process_face(face, &mut constraints, exterior) {
                Ok(()) => {},
                Err(e) => {
                    proof {
                        assert forall|f2: int| f2 < face@ && #[trigger] g.is_face(f2) implies face_fault(
                            g,
                            lengths,
                            angles,
                            f2,
                        ) is None by {
                            assert(listed(fs, f2));
                            let i = choose|i: int| 0 <= i < fs.len() && #[trigger] fs[i] == f2;
                            if i > u {
                                assert(fs[u as int] < fs[i]);
                            }
                        }
                        assert(g.is_face(face@));
                    }
                    return Err(e);
                },
            }
            proof {
                let next: int = if u + 1 < fs.len() {
                    fs[u + 1]
                } else {
                    n as int
                };
                assert forall|f: int| face@ + 1 <= f < next implies !#[trigger] g.is_face(f) by {
                    if g.is_face(f) {
                        assert(listed(fs, f));
                        let i = choose|i: int| 0 <= i < fs.len() && #[trigger] fs[i] == f;
                        if i < u {
                            assert(fs[i] < fs[u as int]);
                        }
                        if i > u + 1 {
                            assert(fs[u + 1] < fs[i]);
                        }
                    }
                }
                if u + 1 < fs.len() {
                    assert(fs[u as int] < fs[u + 1]);
                }
                lemma_face_lift(g, angles, constraints@, face@ + 1, next);
            }
            u += 1;
        }
        proof {
            let c = constraints@;
            assert forall|d: int| c.cg.has_dart(d) implies !#[trigger] c.cg.is_free(d, 0) by {
                if c.cg.is_free(d, 0) {
                    assert(sided(g, c, n as int, d));
                    let a = choose|a: usize|
                        c.angle_to_cg.contains_key(a) && g.face_of(a as int) >= n && #[trigger] c.side_of(
                            c.angle_to_cg[a]@,
                            d,
                        );
                    assert(corner(g, angles, a as int));
                    g.lemma_least(Alphas::face(), a as int);
                }
            }
            assert forall|f: int| #[trigger] g.is_face(f) implies face_fault(g, lengths, angles, f) is None by {
                assert(listed(fs, f));
                let i = choose|i: int| 0 <= i < fs.len() && #[trigger] fs[i] == f;
                assert(face_fault(g, lengths, angles, fs[i]) is None);
            }
        }
        Ok(constraints)
    }

    /// Makes the blue clause of a vertex: a clause of as many variables as
    /// the vertex has angles that are not flat, of which one must be a
    /// mountain, and a dart of it for each of these angles,
    /// counter-clockwise.
    fn process_vertex(&self, vertex: Dart, constraints: &mut Constraints)
        requires
            self.wf(),
            self.g@.is_vertex(vertex@),
            old(constraints).wf(),
            vertex_stage(self.g@, self.angle_constraints@, old(constraints)@, vertex@),
        ensures
            final(constraints).wf(),
            final(constraints)@ == vertex_clause(
                self.g@,
                self.angle_constraints@,
                old(constraints)@,
                vertex@,
            ),
            vertex_stage(self.g@, self.angle_constraints@, final(constraints)@, vertex@ + 1),
    {
        let ghost g = self.g@;
        let ghost angles = self.angle_constraints@;
        let ghost c0 = constraints@;
        let walk: [usize; 2] = [2, 1];
        proof {
            assert(crate::gmap::ints(walk@) =~= seq![2int, 1int]);
        }
        let around = self.g.cycle(vertex, &walk);
        let ghost xs = dart_seq(around@);
        proof {
            assert(g.is_turn(g.vertex_step(), vertex@, xs)) by {
                assert forall|k: int| 0 <= k < xs.len() implies xs[k] == #[trigger] iterate(
                    g.vertex_step(),
                    k as nat,
                    vertex@,
                ) by {
                    assert(xs[k] == around@[k]@);
                }
            }
            g.lemma_turn_unique(g.vertex_step(), vertex@, xs, g.vertex_turn(vertex@));
            assert(xs.take(0) =~= Seq::<int>::empty());
        }
        let mut nonflat: Vec<Dart> = Vec::new();
        let ghost mut idx: Seq<int> = Seq::empty();
        let mut x: usize = 0;
        while x < around.len()
            invariant
                x <= around@.len(),
                xs == dart_seq(around@),
                angles == self.angle_constraints@,
                nonflat@ == nonflat_of(angles, xs.take(x as int)),
                sifted(angles, xs, nonflat@, idx),
                forall|j: int| 0 <= j < idx.len() ==> #[trigger] idx[j] < x,
                forall|y: int|
                    0 <= y < x && !held(angles, #[trigger] xs[y], Angle::Flat) ==> listed(idx, y),
            decreases around@.len() - x,
        {
            let a = around[x];
            proof {
                assert(xs[x as int] == a@);
                assert(xs.take(x + 1).drop_last() =~= xs.take(x as int));
                assert(xs.take(x + 1).last() == a@);
                assert(Dart(a@ as usize) == a);
            }
            if !self.is_flat(a) {
                let ghost idx0 = idx;
                nonflat.push(a);
                proof {
                    idx = idx.push(x as int);
                    assert forall|y: int|
                        0 <= y < x + 1 && !held(angles, #[trigger] xs[y], Angle::Flat) implies listed(
                        idx,
                        y,
                    ) by {
                        if y < x {
                            assert(listed(idx0, y));
                            let j = choose|j: int| 0 <= j < idx0.len() && #[trigger] idx0[j] == y;
                            assert(idx[j] == y);
                        } else {
                            assert(idx[idx.len() - 1] == y);
                        }
                    }
                }
            }
            x += 1;
        }
        proof {
            assert(xs.take(x as int) =~= xs);
        }
        if nonflat.len() == 0 {
            proof {
                assert forall|y: int| 0 <= y < xs.len() implies held(
                    angles,
                    #[trigger] xs[y],
                    Angle::Flat,
                ) by {
                    if !held(angles, xs[y], Angle::Flat) {
                        assert(listed(idx, y));
                    }
                }
                lemma_vertex_skipped(g, angles, c0, vertex@, xs);
            }
            return ;
        }
        let k: usize = nonflat.len();
        let mut cv = constraints.add_clause(k, Color::Blue, 1);
        let ghost c1 = constraints@;
        let ghost start = c0.cg.ndarts();
        let mut i: usize = 0;
        proof {
            constraints.lemma_wf();
            vertex_stage_wf(g, angles, c0, vertex@);
            c0.lemma_with_clause(k as int, Color::Blue, 1);
        }
        while i < k
            invariant
                k == nonflat@.len(),
                i <= k,
                constraints.wf(),
                c0.wf(),
                start == c0.cg.ndarts(),
                start <= usize::MAX,
                c1 == c0.with_clause(k as int, Color::Blue, 1),
                crate::gmap::ints(walk@) == seq![2int, 1int],
                constraints@ == (ConstraintsView {
                    angle_to_cg: with_angles(c0.angle_to_cg, nonflat@, start, k as int, i as int),
                    ..c1
                }),
                cv@ == place(start, k as int, i as int),
            decreases k - i,
        {
            proof {
                c0.lemma_with_clause(k as int, Color::Blue, 1);
                c1.cg.lemma_step(cv@, 2, 1);
                let y = cv@;
                assert(c1.cg.al(y, 2) == chain_image(start, k as int, 1, 2, true, y - start, 2));
                let z = c1.cg.al(y, 2);
                assert(c1.cg.al(z, 1) == chain_image(start, k as int, 1, 2, true, z - start, 1));
            }
            constraints.set_angle(nonflat[i], cv);
            cv = constraints.cg().al(cv, &walk);
            i += 1;
        }
        let total: usize = constraints.cg().ndarts();
        proof {
            constraints.lemma_wf();
            lemma_vertex_done(g, angles, c0, constraints@, vertex@, xs, nonflat@, idx);
        }
    }

    /// Makes the red clauses of a face, where its angles and lengths can
    /// fold flat.
    fn process_face(&self, face: Dart, constraints: &mut Constraints, exterior: bool) -> (r: Result<
        (),
        Error,
    >)
        requires
            self.wf(),
            self.g@.is_face(face@),
            old(constraints).wf(),
            face_stage(self.g@, self.angle_constraints@, old(constraints)@, face@),
        ensures
            final(constraints).wf(),
            match r {
                Ok(_) => face_fault(self.g@, self.edge_lengths@, self.angle_constraints@, face@)
                    is None && face_stage(
                    self.g@,
                    self.angle_constraints@,
                    final(constraints)@,
                    face@ + 1,
                ) && final(constraints)@ == face_clauses(
                    self.g@,
                    self.edge_lengths@,
                    self.angle_constraints@,
                    old(constraints)@,
                    face@,
                    exterior,
                ),
                Err(e) => face_fault(self.g@, self.edge_lengths@, self.angle_constraints@, face@)
                    == Some(e) && final(constraints)@ == old(constraints)@,
            },
    {
        let ghost g = self.g@;
        let ghost angles = self.angle_constraints@;
        let ghost c0 = constraints@;
        let lens = match self.nonflat_lengths(face) {
            Ok(v) => v,
            Err(e) => {
                return Err(e);
            },
        };
        proof {
            assert(seconds(pairs(lens@)) =~= spans(lens@));
        }
        match Self::check_kawasaki(&lens) {
            Ok(()) => {},
            Err(e) => {
                return Err(e);
            },
        }
        let ghost xs = g.turn(face@);
        let mut effective_lengths: Vec<Span> = Vec::new();
        let mut corners: Vec<Dart> = Vec::new();
        let mut k: usize = 0;
        while k < lens.len()
            invariant
                k <= lens@.len(),
                effective_lengths@.len() == k,
                corners@.len() == k,
                constraints@ == c0,
                g.sound(),
                g.closed_oriented(),
                g.is_face(face@),
                g.is_turn(g.face_step(), face@, xs),
                face_stage(g, angles, c0, face@),
                forall|j: int|
                    0 <= j < lens@.len() ==> listed(xs, (#[trigger] lens@[j]).0@) && !held(
                        angles,
                        lens@[j].0@,
                        Angle::Flat,
                    ),
                forall|j: int| 0 <= j < k ==> #[trigger] effective_lengths@[j] == lens@[j].1,
                forall|j: int|
                    0 <= j < k ==> c0.angle_to_cg.contains_key((#[trigger] lens@[j]).0.0)
                        && corners@[j] == c0.angle_to_cg[lens@[j].0.0],
            decreases lens@.len() - k,
        {
            let a: Dart = lens[k].0;
            proof {
                lemma_face_ready(g, angles, c0, face@, xs, lens@, k as int);
            }
            let d: Dart = match constraints.angle_to_cg().get(&a.0) {
                Some(d) => *d,
                None => a,
            };
            effective_lengths.push(lens[k].1);
            corners.push(d);
            k += 1;
        }
        proof {
            assert(crate::shrink::span_ints(effective_lengths@) =~= spans(lens@));
        }
        let plan = crate::shrink::shrink(&effective_lengths, exterior);
        proof {
            assert(face_made(g, angles, c0, face@, xs, lens@, corners@));
            assert forall|s: int| 0 <= s < corners@.len() implies c0.waiting(#[trigger] corners@[s]@) by {
                lemma_face_ready(g, angles, c0, face@, xs, lens@, s);
            }
            assert forall|s1: int, s2: int| 0 <= s1 < s2 < corners@.len() implies #[trigger] corners@[s1]@
                != #[trigger] corners@[s2]@ by {
                lemma_face_ready(g, angles, c0, face@, xs, lens@, s1);
                lemma_face_ready(g, angles, c0, face@, xs, lens@, s2);
                assert(lens@[s1].0@ != lens@[s2].0@);
                assert(lens@[s1].0.0 != lens@[s2].0.0);
            }
        }
        apply_plan(constraints, &plan, &corners, exterior);
        proof {
            constraints.lemma_wf();
            lemma_face_done(g, angles, c0, constraints@, face@, xs, lens@, corners@);
            let l = pairs(lens@);
            assert(corners@ =~= Seq::new(l.len(), |k: int| c0.angle_to_cg[l[k].0 as usize])) by {
                assert forall|k: int| 0 <= k < l.len() implies corners@[k] == c0.angle_to_cg[l[k].0 as usize] by {
                    assert(corners@[k] == c0.angle_to_cg[lens@[k].0.0]);
                    assert(l[k].0 == lens@[k].0@);
                }
            }
            assert(views(plan@).len() == plan@.len());
        }
        Ok(())
    }
}

/// Clauses at the stage of the vertices are well formed.
pub proof fn vertex_stage_wf(g: GMapView, angles: Map<usize, Angle>, c: ConstraintsView, vb: int)
    requires
        vertex_stage(g, angles, c, vb),
    ensures
        c.wf(),
{
}

/// No clause asks for more mountains than it has variables: the clause
/// that starts at `h` is a ring of twice as many darts as it has variables,
/// and its required number is no more than that number of variables.
pub proof fn lemma_sizes_bounded(c: ConstraintsView, h: usize)
    requires
        c.wf(),
        c.sizes.contains_key(h),
    ensures
        c.is_clause(h as int),
        c.sizes[h] <= c.width[h as int],
        h + 2 * c.width[h as int] <= c.cg.ndarts(),
{
    assert(c.is_clause(h as int));
    assert(c.block_ok(h as int));
}

/// In the clauses of a problem every variable lies between one blue clause
/// and one red one: the two darts of a side, which `alpha_2` joins, lie on
/// one clause, `alpha_0` joins every dart to a dart of another clause, and
/// the colours of the two clauses differ.
pub proof fn lemma_one_blue_one_red(p: &Problem, c: Constraints, d: int)
    requires
        p.wf(),
        answers(p, Ok(c)),
        c@.cg.has_dart(d),
    ensures
        c@.home[c@.cg.al(d, 2)] == c@.home[d],
        c@.cg.al(d, 0) != d,
        c@.color_of(c@.cg.al(d, 0)) != c@.color_of(d),
        c@.cg.al(c@.cg.al(d, 2), 0) == c@.cg.al(c@.cg.al(d, 0), 2),
{
    assert(c@.block_ok(d));
    assert(!c@.cg.is_free(d, 0));
    assert(c@.cg.al(c@.cg.al(d, 0), 2) == c@.cg.al(c@.cg.al(d, 2), 0));
}

/// A face whose effective lengths, signed in turn, do not add up to zero has
/// the problem refused; and with `KawasakiViolation`, where no face has
/// angles that cannot hold together.
pub proof fn lemma_kawasaki_refused(p: &Problem, r: Result<Constraints, Error>, f: int)
    requires
        p.wf(),
        answers(p, r),
        p.map()@.is_face(f),
        face_fault(p.map()@, p.lengths(), p.angles(), f) == Some(Error::KawasakiViolation),
    ensures
        r is Err,
        (forall|f2: int| #[trigger]
            p.map()@.is_face(f2) ==> face_fault(p.map()@, p.lengths(), p.angles(), f2) != Some(
                Error::BadAngleConstraints,
            )) ==> r == Err::<Constraints, Error>(Error::KawasakiViolation),
{
}

/// In the clauses of a problem the angles that have a dart are the angles
/// that are not flat, one dart each, at an even place of a blue clause.
pub proof fn lemma_angles_kept(p: &Problem, c: Constraints, a: usize)
    requires
        p.wf(),
        answers(p, Ok(c)),
    ensures
        c@.angle_to_cg.contains_key(a) <==> corner(p.map()@, p.angles(), a as int),
        c@.angle_to_cg.contains_key(a) ==> c@.angle_dart(c@.angle_to_cg[a]@),
{
    if corner(p.map()@, p.angles(), a as int) {
        assert(c@.angle_to_cg.contains_key((a as int) as usize));
    }
}

} // verus!
