//! Crease patterns read from a mesh record: the map of the mesh, which
//! darts point counter-clockwise, and what the record says of vertices and
//! creases; and the order in which the faces of a pattern are laid out when
//! it is folded.

use crate::dart::{Alphas, Dart, GMapError};
use crate::listing::listed;
use crate::model::GMapView;
use crate::finite::lemma_distinct_bounded;
use crate::gmap::GMap;
use crate::orbit::dart_seq;
use crate::orbit_map::OrbitMap;
use std::collections::HashMap;
use vstd::prelude::*;

verus! {

broadcast use vstd::std_specs::hash::group_hash_axioms;

/// Why a mesh record could not be read, or a pattern not folded.
#[derive(Debug)]
pub enum Error {
    /// An operation on a map failed.
    GMap(GMapError),
    /// The record lacks a field that is needed.
    FoldMissingField(String),
    /// An edge of the record lies on more than two faces, or twice on one.
    FoldNonManifold,
    /// A vertex has coordinates that are not of the plane.
    FoldBadCoordinates,
    /// An edge has an assignment that is not known, or an angle out of range.
    FoldBadAngle,
    /// The record speaks of a vertex or an edge that no face has.
    FoldInvalidReference(String, usize),
    /// A face has not as many edges as vertices, or none.
    FoldBadFace(usize),
    /// Two ways round a vertex lay a face out differently.
    DistinctIsometries(Dart),
}

/// The fold angle of a crease: as the record assigns it, in whole degrees,
/// or as the record gives it.
#[derive(Clone, Debug)]
pub enum FoldAngle<A> {
    Assigned(i32),
    Given(A),
}

/// What a mesh record holds of a crease pattern. A vertex whose coordinates
/// are not of the plane has none here, and an angle out of range is none.
pub struct Mesh<P, A> {
    /// For every face its vertices, counter-clockwise.
    pub faces_vertices: Vec<Vec<usize>>,
    /// For every face its edges: edge `i` leads from vertex `i` to the next.
    pub faces_edges: Vec<Vec<usize>>,
    /// For every vertex its coordinates.
    pub vertices_coords: Vec<Option<P>>,
    /// For every edge its assignment: `B`, `M`, `V` or `F`.
    pub edges_assignment: Vec<String>,
    /// For every edge its fold angle, where the record gives angles.
    pub edges_fold_angle: Vec<Option<A>>,
}

/// The darts that stand for the faces, edges and vertices of a record: for
/// each the first dart met that points counter-clockwise.
pub struct FoldTracking {
    pub face_to_dart: HashMap<usize, Dart>,
    pub edge_to_dart: HashMap<usize, Dart>,
    pub vertex_to_dart: HashMap<usize, Dart>,
}

/// A crease pattern: a map of dimension 2, for every dart whether it points
/// counter-clockwise in its face, for every vertex its place, and for every
/// crease its fold angle.
pub struct CreasePattern<P: Clone, A: Clone> {
    g: GMap,
    orientation: HashMap<usize, bool>,
    vertices_coords: OrbitMap<P>,
    fold_angle: OrbitMap<FoldAngle<A>>,
}

/// The record lacks a field that is needed: faces by their vertices, faces
/// by their edges, the coordinates of the vertices, or both the assignments
/// and the fold angles of the edges.
pub open spec fn missing<P, A>(mesh: &Mesh<P, A>) -> bool {
    ||| mesh.faces_vertices@.len() == 0
    ||| mesh.faces_edges@.len() == 0
    ||| mesh.vertices_coords@.len() == 0
    ||| (mesh.edges_assignment@.len() == 0 && mesh.edges_fold_angle@.len() == 0)
}

/// The fold angle, in degrees, that an assignment stands for: none for a
/// border, -180 for a mountain, 180 for a valley, 0 for a flat crease.
pub open spec fn assigned(a: Seq<char>) -> Option<Option<i32>> {
    if a == "B"@ {
        Some(None)
    } else if a == "M"@ {
        Some(Some(-180i32))
    } else if a == "V"@ {
        Some(Some(180i32))
    } else if a == "F"@ {
        Some(Some(0i32))
    } else {
        None
    }
}

/// What reading the faces of a record has made so far: the map, the dart
/// of every face, edge and vertex met, and which darts point
/// counter-clockwise.
pub struct Traced {
    pub g: GMapView,
    pub faces: Map<usize, Dart>,
    pub edges: Map<usize, Dart>,
    pub vertices: Map<usize, Dart>,
    pub orientation: Map<usize, bool>,
}

/// Why the faces of a record cannot be read.
pub enum Fault {
    /// The face has not as many edges as vertices, or none.
    BadFace(usize),
    /// An edge cannot be sewn to the face that has it already.
    NonManifold,
}

/// Nothing read yet.
pub open spec fn untraced() -> Traced {
    Traced {
        g: GMapView::empty(2),
        faces: Map::empty(),
        edges: Map::empty(),
        vertices: Map::empty(),
        orientation: Map::empty(),
    }
}

/// One corner of a face: `d` is the dart of the face at the vertex, pointing
/// counter-clockwise. A new vertex keeps `d`. `d` points counter-clockwise
/// and its image under `alpha_1` clockwise. The next dart of the face is
/// the dart of the edge: a new edge keeps it; at an edge that another face
/// has, it is sewn to the dart at the other end of the dart kept, and the
/// corner cannot be read where that cannot be done.
pub open spec fn corner_step(st: Traced, d: int, vertex: usize, edge: usize) -> Option<
    (Traced, int),
> {
    let next = st.g.al(st.g.al(d, 1), 0);
    let vertices = if st.vertices.contains_key(vertex) {
        st.vertices
    } else {
        st.vertices.insert(vertex, Dart(d as usize))
    };
    let orientation = st.orientation.insert(d as usize, true).insert(
        st.g.al(d, 1) as usize,
        false,
    );
    if st.edges.contains_key(edge) {
        let back = st.g.al(st.edges[edge]@, 0);
        if st.g.can_sew(2, next, back) {
            Some((Traced { g: st.g.sewn(2, next, back), vertices, orientation, ..st }, next))
        } else {
            None
        }
    } else {
        Some(
            (
                Traced {
                    edges: st.edges.insert(edge, Dart(next as usize)),
                    vertices,
                    orientation,
                    ..st
                },
                next,
            ),
        )
    }
}

/// The first `i` corners of a face read, from the dart `d0` on.
#[verifier::opaque]
pub open spec fn corners_read(
    st0: Traced,
    d0: int,
    vertices: Seq<usize>,
    edges: Seq<usize>,
    i: int,
) -> Option<(Traced, int)>
    decreases i,
{
    if i <= 0 {
        Some((st0, d0))
    } else {
        match corners_read(st0, d0, vertices, edges, i - 1) {
            Some(before) => corner_step(before.0, before.1, vertices[i - 1], edges[i - 1]),
            None => None,
        }
    }
}

/// One face read: a polygon of as many edges as the face has vertices, and
/// its corners in turn.
pub open spec fn face_step(st: Traced, face: usize, vertices: Seq<usize>, edges: Seq<usize>) -> Result<
    Traced,
    Fault,
> {
    if vertices.len() != edges.len() || vertices.len() == 0 {
        Err(Fault::BadFace(face))
    } else {
        let d = st.g.ndarts();
        let start = Traced {
            g: st.g.with_cycle(1, 0, vertices.len() as int),
            faces: st.faces.insert(face, Dart(d as usize)),
            ..st
        };
        match corners_read(start, d, vertices, edges, vertices.len() as int) {
            Some(done) => Ok(done.0),
            None => Err(Fault::NonManifold),
        }
    }
}

/// The first `k` faces of a record read.
#[verifier::opaque]
pub open spec fn faces_read<P, A>(mesh: &Mesh<P, A>, k: int) -> Result<Traced, Fault>
    decreases k,
{
    if k <= 0 {
        Ok(untraced())
    } else {
        match faces_read(mesh, k - 1) {
            Ok(st) => face_step(
                st,
                (k - 1) as usize,
                mesh.faces_vertices@[k - 1]@,
                mesh.faces_edges@[k - 1]@,
            ),
            Err(e) => Err(e),
        }
    }
}

/// The number of faces that a record gives with vertices and with edges.
pub open spec fn face_count<P, A>(mesh: &Mesh<P, A>) -> int {
    if mesh.faces_vertices@.len() <= mesh.faces_edges@.len() {
        mesh.faces_vertices@.len() as int
    } else {
        mesh.faces_edges@.len() as int
    }
}

/// The faces of a record read.
pub open spec fn traced<P, A>(mesh: &Mesh<P, A>) -> Result<Traced, Fault> {
    faces_read(mesh, face_count(mesh))
}

/// How the corners of a face are read, one after the other.
pub proof fn lemma_corners_read(
    st0: Traced,
    d0: int,
    vertices: Seq<usize>,
    edges: Seq<usize>,
    k: int,
)
    requires
        0 <= k,
    ensures
        corners_read(st0, d0, vertices, edges, 0) == Some((st0, d0)),
        corners_read(st0, d0, vertices, edges, k + 1) == (match corners_read(
            st0,
            d0,
            vertices,
            edges,
            k,
        ) {
            Some(before) => corner_step(before.0, before.1, vertices[k], edges[k]),
            None => None,
        }),
{
    reveal(corners_read);
}

/// How the faces of a record are read, one after the other.
pub proof fn lemma_faces_read<P, A>(mesh: &Mesh<P, A>, k: int)
    requires
        0 <= k,
    ensures
        faces_read(mesh, 0) == Ok::<Traced, Fault>(untraced()),
        faces_read(mesh, k + 1) == (match faces_read(mesh, k) {
            Ok(st) => face_step(st, k as usize, mesh.faces_vertices@[k]@, mesh.faces_edges@[k]@),
            Err(e) => Err(e),
        }),
{
    reveal(faces_read);
}

/// A corner that cannot be read stops the face.
pub proof fn lemma_corners_stop(
    st0: Traced,
    d0: int,
    vertices: Seq<usize>,
    edges: Seq<usize>,
    k: int,
    n: int,
)
    requires
        0 <= k <= n,
        corners_read(st0, d0, vertices, edges, k) is None,
    ensures
        corners_read(st0, d0, vertices, edges, n) is None,
    decreases n - k,
{
    if k < n {
        lemma_corners_read(st0, d0, vertices, edges, k);
        lemma_corners_stop(st0, d0, vertices, edges, k + 1, n);
    }
}

/// A face that cannot be read stops the record.
pub proof fn lemma_faces_stop<P, A>(mesh: &Mesh<P, A>, k: int, n: int)
    requires
        0 <= k <= n,
        faces_read(mesh, k) is Err,
    ensures
        faces_read(mesh, n) == faces_read(mesh, k),
    decreases n - k,
{
    if k < n {
        lemma_faces_read(mesh, k);
        lemma_faces_stop(mesh, k + 1, n);
    }
}

/// What a map by orbits holds when the values wanted for the first `upto`
/// indices are written, each for the orbit of the dart of its index: every
/// dart of these orbits has a value, and every value is like the value
/// wanted for an index whose dart lies in the orbit.
pub open spec fn filled<W, V>(
    g: GMapView,
    a: Alphas,
    darts: Map<usize, Dart>,
    want: spec_fn(int) -> Option<W>,
    like: spec_fn(W, V) -> bool,
    upto: int,
    m: Map<usize, V>,
) -> bool {
    &&& forall|i: int, e: usize|
        0 <= i < upto && want(i) is Some && #[trigger] g.reaches(a, darts[i as usize]@, e as int)
            ==> m.contains_key(e)
    &&& forall|e: usize| #[trigger]
        m.contains_key(e) ==> exists|i: int|
            0 <= i < upto && want(i) is Some && #[trigger] g.reaches(a, darts[i as usize]@, e as int)
                && like(want(i)->0, m[e])
}

/// One more value written, or one index passed over.
pub proof fn lemma_filled<W, V>(
    g: GMapView,
    a: Alphas,
    darts: Map<usize, Dart>,
    want: spec_fn(int) -> Option<W>,
    like: spec_fn(W, V) -> bool,
    upto: int,
    old_m: Map<usize, V>,
    m: Map<usize, V>,
)
    requires
        0 <= upto,
        filled(g, a, darts, want, like, upto, old_m),
        want(upto) is None ==> m == old_m,
        want(upto) is Some ==> {
            &&& forall|e: usize|
                #![trigger m.contains_key(e)]
                #![trigger m[e]]
                g.reaches(a, darts[upto as usize]@, e as int) ==> m.contains_key(e) && like(
                    want(upto)->0,
                    m[e],
                )
            &&& forall|e: usize|
                #![trigger m.contains_key(e)]
                #![trigger m[e]]
                !g.reaches(a, darts[upto as usize]@, e as int) ==> (m.contains_key(e)
                    == old_m.contains_key(e)) && (old_m.contains_key(e) ==> m[e] == old_m[e])
        },
    ensures
        filled(g, a, darts, want, like, upto + 1, m),
{
    assert forall|i: int, e: usize|
        0 <= i < upto + 1 && want(i) is Some && #[trigger] g.reaches(
            a,
            darts[i as usize]@,
            e as int,
        ) implies m.contains_key(e) by {
        if i < upto {
            assert(old_m.contains_key(e));
            if want(upto) is Some {
                if !g.reaches(a, darts[upto as usize]@, e as int) {
                    assert(m.contains_key(e) == old_m.contains_key(e));
                }
            }
        }
    }
    assert forall|e: usize| #[trigger] m.contains_key(e) implies exists|i: int|
        0 <= i < upto + 1 && want(i) is Some && #[trigger] g.reaches(a, darts[i as usize]@, e as int)
            && like(want(i)->0, m[e]) by {
        if want(upto) is Some && g.reaches(a, darts[upto as usize]@, e as int) {
            assert(like(want(upto)->0, m[e]));
        } else {
            assert(old_m.contains_key(e));
            let i = choose|i: int|
                0 <= i < upto && want(i) is Some && #[trigger] g.reaches(
                    a,
                    darts[i as usize]@,
                    e as int,
                ) && like(want(i)->0, old_m[e]);
            assert(m[e] == old_m[e]);
            assert(0 <= i < upto + 1);
        }
    }
}

/// The value `v` is a copy of a copy of `p`.
pub open spec fn is_place_like<P: Clone>(p: P, v: P) -> bool {
    exists|x: P| cloned(p, x) && cloned(x, v)
}

/// The value `v` is a copy of the fold angle `w`, itself copied where the
/// record gives it.
pub open spec fn is_angle_like<A: Clone>(w: FoldAngle<A>, v: FoldAngle<A>) -> bool {
    if w is Given {
        exists|x: A| #[trigger] given_like(w->Given_0, x, v)
    } else {
        cloned(w, v)
    }
}

/// `x` is a copy of the angle `angle`, and `v` a copy of the fold angle
/// that gives `x`.
pub open spec fn given_like<A: Clone>(angle: A, x: A, v: FoldAngle<A>) -> bool {
    cloned(angle, x) && cloned(FoldAngle::Given(x), v)
}

/// `is_place_like`, as a function.
pub open spec fn place_like<P: Clone>() -> spec_fn(P, P) -> bool {
    |p: P, v: P| is_place_like(p, v)
}

/// `is_angle_like`, as a function.
pub open spec fn angle_like<A: Clone>() -> spec_fn(FoldAngle<A>, FoldAngle<A>) -> bool {
    |w: FoldAngle<A>, v: FoldAngle<A>| is_angle_like(w, v)
}

/// The place wanted for every vertex of a record.
pub open spec fn wanted_places<P, A>(mesh: &Mesh<P, A>) -> spec_fn(int) -> Option<P> {
    |v: int| mesh.vertices_coords@[v]
}

/// The fold angle wanted for every edge of a record: the one that the
/// record gives, where it gives angles, else the one that its assignment
/// stands for; none for a border.
pub open spec fn wanted_angles<P, A>(mesh: &Mesh<P, A>) -> spec_fn(int) -> Option<FoldAngle<A>> {
    |e: int|
        if mesh.edges_fold_angle@.len() == 0 {
            match assigned(mesh.edges_assignment@[e]@) {
                Some(Some(degrees)) => Some(FoldAngle::Assigned(degrees)),
                _ => None,
            }
        } else {
            match mesh.edges_fold_angle@[e] {
                Some(angle) => Some(FoldAngle::Given(angle)),
                None => None,
            }
        }
}

/// The number of edges of a record that get a fold angle.
pub open spec fn angle_count<P, A>(mesh: &Mesh<P, A>) -> int {
    if mesh.edges_fold_angle@.len() == 0 {
        mesh.edges_assignment@.len() as int
    } else {
        mesh.edges_fold_angle@.len() as int
    }
}

/// Reads the assignment of an edge.
pub fn interpret_assignment(a: &String) -> (r: Result<Option<i32>, Error>)
    ensures
        match r {
            Ok(x) => assigned(a@) == Some(x),
            Err(Error::FoldBadAngle) => assigned(a@) is None,
            Err(_) => false,
        },
{
    let border = "B".to_owned();
    let mountain = "M".to_owned();
    let valley = "V".to_owned();
    let flat = "F".to_owned();
    if *a == border {
        Ok(None)
    } else if *a == mountain {
        Ok(Some(-180))
    } else if *a == valley {
        Ok(Some(180))
    } else if *a == flat {
        Ok(Some(0))
    } else {
        Err(Error::FoldBadAngle)
    }
}

impl<P: Clone, A: Clone> CreasePattern<P, A> {
    /// The map of the pattern.
    pub closed spec fn map(&self) -> GMap {
        self.g
    }

    /// Which darts point counter-clockwise.
    pub closed spec fn pointing(&self) -> Map<usize, bool> {
        self.orientation@
    }

    /// The places of the vertices.
    pub closed spec fn places(&self) -> OrbitMap<P> {
        self.vertices_coords
    }

    /// The fold angles of the creases.
    pub closed spec fn angles(&self) -> OrbitMap<FoldAngle<A>> {
        self.fold_angle
    }

    /// The map is a valid map of dimension 2.
    pub closed spec fn wf(&self) -> bool {
        self.g.wf() && self.g@.dimension == 2
    }

    /// The map of the pattern.
    pub fn g(&self) -> (r: &GMap)
        ensures
            *r == self.map(),
            self.wf() ==> r.wf() && r@.dimension == 2,
    {
        &self.g
    }

    /// For every dart of a face of the record, whether it points
    /// counter-clockwise.
    pub fn orientation(&self) -> (r: &HashMap<usize, bool>)
        ensures
            r@ == self.pointing(),
    {
        &self.orientation
    }

    /// The place of every vertex.
    pub fn vertices_coords(&self) -> (r: &OrbitMap<P>)
        ensures
            *r == self.places(),
    {
        &self.vertices_coords
    }

    /// The fold angle of every crease.
    pub fn fold_angle(&self) -> (r: &OrbitMap<FoldAngle<A>>)
        ensures
            *r == self.angles(),
    {
        &self.fold_angle
    }

    /// Gives the crease of `edge` another fold angle.
    pub fn set_fold_angle(&mut self, edge: Dart, angle: A)
        requires
            old(self).wf(),
            old(self).map()@.has_dart(edge@),
        ensures
            final(self).wf(),
            final(self).map() == old(self).map(),
            final(self).pointing() == old(self).pointing(),
            final(self).places() == old(self).places(),
            final(self).angles().mask() == old(self).angles().mask(),
            forall|e: usize|
                #![trigger final(self).angles()@.contains_key(e)]
                #![trigger final(self).angles()@[e]]
                old(self).map()@.reaches(old(self).angles().mask(), edge@, e as int) ==> final(self).angles()@.contains_key(e) && cloned(FoldAngle::Given(angle), final(self).angles()@[e]),
            forall|e: usize|
                #![trigger final(self).angles()@.contains_key(e)]
                #![trigger final(self).angles()@[e]]
                !old(self).map()@.reaches(old(self).angles().mask(), edge@, e as int) ==> (final(self).angles()@.contains_key(e) == old(self).angles()@.contains_key(e)) && (old(self).angles()@.contains_key(e) ==> final(self).angles()@[e] == old(self).angles()@[e]),
    {
        self.fold_angle.insert(&self.g, edge, FoldAngle::Given(angle));
    }

    /// Reads a crease pattern from a mesh record. Every face becomes a
    /// polygon; the darts that point counter-clockwise are walked, the first
    /// at every new vertex and on every new edge is kept, and a face that
    /// comes to an edge that another face has is sewn to it there. Then the
    /// vertices get their places and the creases their fold angles: those
    /// that the record gives, or else those that its assignments stand for.
    pub fn from(mesh: &Mesh<P, A>) -> (r: Result<(CreasePattern<P, A>, FoldTracking), Error>)
        ensures
            match r {
                Ok(made) => {
                    &&& !missing(mesh)
                    &&& made.0.wf()
                    &&& traced(mesh) == Ok::<Traced, Fault>(
                        Traced {
                            g: made.0.map()@,
                            faces: made.1.face_to_dart@,
                            edges: made.1.edge_to_dart@,
                            vertices: made.1.vertex_to_dart@,
                            orientation: made.0.pointing(),
                        },
                    )
                    &&& made.0.places().mask() == Alphas::vertex()
                    &&& made.0.angles().mask() == Alphas::edge()
                    &&& filled(
                        made.0.map()@,
                        Alphas::vertex(),
                        made.1.vertex_to_dart@,
                        wanted_places(mesh),
                        place_like::<P>(),
                        mesh.vertices_coords@.len() as int,
                        made.0.places()@,
                    )
                    &&& filled(
                        made.0.map()@,
                        Alphas::edge(),
                        made.1.edge_to_dart@,
                        wanted_angles(mesh),
                        angle_like::<A>(),
                        angle_count(mesh),
                        made.0.angles()@,
                    )
                    &&& forall|f: usize|
                        f < mesh.faces_vertices@.len() && f < mesh.faces_edges@.len()
                            ==> #[trigger] made.1.face_to_dart@.contains_key(f)
                    &&& forall|f: usize| #[trigger]
                        made.1.face_to_dart@.contains_key(f) ==> made.0.map()@.has_dart(
                            made.1.face_to_dart@[f]@,
                        )
                    &&& forall|e: usize| #[trigger]
                        made.1.edge_to_dart@.contains_key(e) ==> made.0.map()@.has_dart(
                            made.1.edge_to_dart@[e]@,
                        )
                    &&& forall|v: usize| #[trigger]
                        made.1.vertex_to_dart@.contains_key(v) ==> made.0.map()@.has_dart(
                            made.1.vertex_to_dart@[v]@,
                        )
                    &&& forall|v: int|
                        0 <= v < mesh.vertices_coords@.len() ==> (
                        #[trigger] mesh.vertices_coords@[v]) is Some && made.1.vertex_to_dart@.contains_key(
                            v as usize,
                        )
                    &&& forall|e: int|
                        0 <= e < mesh.edges_assignment@.len() ==> assigned(
                            (#[trigger] mesh.edges_assignment@[e])@,
                        ) is Some
                },
                Err(Error::FoldMissingField(_)) => missing(mesh),
                Err(Error::FoldBadFace(f)) => !missing(mesh) && traced(mesh) == Err::<Traced, Fault>(
                    Fault::BadFace(f),
                ),
                Err(Error::FoldNonManifold) => !missing(mesh) && traced(mesh) == Err::<
                    Traced,
                    Fault,
                >(Fault::NonManifold),
                Err(Error::FoldInvalidReference(_, i)) => !missing(mesh) && traced(mesh) is Ok && (
                (i < mesh.vertices_coords@.len() && !traced(mesh)->Ok_0.vertices.contains_key(i)) || ((
                i < mesh.edges_assignment@.len() || i < mesh.edges_fold_angle@.len()) && !traced(
                    mesh,
                )->Ok_0.edges.contains_key(i))),
                Err(Error::FoldBadCoordinates) => !missing(mesh) && traced(mesh) is Ok && exists|
                    v: int,
                |
                    0 <= v < mesh.vertices_coords@.len() && (
                    #[trigger] mesh.vertices_coords@[v]) is None,
                Err(Error::FoldBadAngle) => !missing(mesh) && traced(mesh) is Ok && ((exists|e: int|
                    0 <= e < mesh.edges_assignment@.len() && assigned(
                        (#[trigger] mesh.edges_assignment@[e])@,
                    ) is None) || (exists|e: int|
                    0 <= e < mesh.edges_fold_angle@.len() && (
                    #[trigger] mesh.edges_fold_angle@[e]) is None)),
                Err(_) => false,
            },
    {
        if mesh.faces_vertices.len() == 0 {
            return Err(Error::FoldMissingField("faces_vertices".to_owned()));
        }
        if mesh.faces_edges.len() == 0 {
            return Err(Error::FoldMissingField("faces_edges".to_owned()));
        }
        if mesh.vertices_coords.len() == 0 {
            return Err(Error::FoldMissingField("vertices_coords".to_owned()));
        }
        if mesh.edges_assignment.len() == 0 && mesh.edges_fold_angle.len() == 0 {
            return Err(Error::FoldMissingField("edges_assignment or edges_foldAngle".to_owned()));
        }
        let tracing = match trace(mesh) {
            Ok(t) => t,
            Err(e) => {
                return Err(e);
            },
        };
        let ghost st = tracing@;
        let g = tracing.g;
        let face_to_dart = tracing.face_to_dart;
        let edge_to_dart = tracing.edge_to_dart;
        let vertex_to_dart = tracing.vertex_to_dart;
        let orientation = tracing.orientation;
        proof {
            Alphas::lemma_named_cells();
            assert(st == Traced {
                g: g@,
                faces: face_to_dart@,
                edges: edge_to_dart@,
                vertices: vertex_to_dart@,
                orientation: orientation@,
            });
            assert(face_count(mesh) <= mesh.faces_vertices@.len());
        }
        let mut vertices_coords: OrbitMap<P> = OrbitMap::over_cells(0);
        let mut vertex: usize = 0;
        while vertex < mesh.vertices_coords.len()
            invariant
                !missing(mesh),
                g.wf(),
                traced(mesh) == Ok::<Traced, Fault>(st),
                st.vertices == vertex_to_dart@,
                vertices_coords.mask() == Alphas::vertex(),
                filled(
                    g@,
                    Alphas::vertex(),
                    vertex_to_dart@,
                    wanted_places(mesh),
                    place_like::<P>(),
                    vertex as int,
                    vertices_coords@,
                ),
                vertex <= mesh.vertices_coords@.len(),
                forall|v: usize| #[trigger]
                    vertex_to_dart@.contains_key(v) ==> g@.has_dart(vertex_to_dart@[v]@),
                forall|v: int|
                    0 <= v < vertex ==> (#[trigger] mesh.vertices_coords@[v]) is Some
                        && vertex_to_dart@.contains_key(v as usize),
            decreases mesh.vertices_coords@.len() - vertex,
        {
            let d: Dart = match vertex_to_dart.get(&vertex) {
                Some(d) => *d,
                None => {
                    return Err(Error::FoldInvalidReference("vertex".to_owned(), vertex));
                },
            };
            let ghost old_places = vertices_coords@;
            match &mesh.vertices_coords[vertex] {
                Some(p) => {
                    let copy = p.clone();
                    vertices_coords.insert(&g, d, copy);
                    proof {
                        assert forall|e: usize|
                            #![trigger vertices_coords@.contains_key(e)]
                            #![trigger vertices_coords@[e]]
                            g@.reaches(Alphas::vertex(), d@, e as int) implies vertices_coords@.contains_key(
                            e,
                        ) && place_like::<P>()(*p, vertices_coords@[e]) by {
                            assert(cloned(*p, copy) && cloned(copy, vertices_coords@[e]));
                        }
                    }
                },
                None => {
                    return Err(Error::FoldBadCoordinates);
                },
            }
            proof {
                lemma_filled(
                    g@,
                    Alphas::vertex(),
                    vertex_to_dart@,
                    wanted_places(mesh),
                    place_like::<P>(),
                    vertex as int,
                    old_places,
                    vertices_coords@,
                );
            }
            vertex += 1;
        }
        // no assignment is unknown
        let mut edge: usize = 0;
        while edge < mesh.edges_assignment.len()
            invariant
                !missing(mesh),
                traced(mesh) == Ok::<Traced, Fault>(st),
                edge <= mesh.edges_assignment@.len(),
                forall|e: int|
                    0 <= e < edge ==> assigned((#[trigger] mesh.edges_assignment@[e])@) is Some,
            decreases mesh.edges_assignment@.len() - edge,
        {
            match interpret_assignment(&mesh.edges_assignment[edge]) {
                Ok(_) => {},
                Err(_) => {
                    return Err(Error::FoldBadAngle);
                },
            }
            edge += 1;
        }
        let mut fold_angle: OrbitMap<FoldAngle<A>> = OrbitMap::over_cells(1);
        if mesh.edges_fold_angle.len() == 0 {
            let mut edge: usize = 0;
            while edge < mesh.edges_assignment.len()
                invariant
                    !missing(mesh),
                    g.wf(),
                    traced(mesh) == Ok::<Traced, Fault>(st),
                    st.edges == edge_to_dart@,
                    fold_angle.mask() == Alphas::edge(),
                    mesh.edges_fold_angle@.len() == 0,
                    filled(
                        g@,
                        Alphas::edge(),
                        edge_to_dart@,
                        wanted_angles(mesh),
                        angle_like::<A>(),
                        edge as int,
                        fold_angle@,
                    ),
                    edge <= mesh.edges_assignment@.len(),
                    forall|e: usize| #[trigger]
                        edge_to_dart@.contains_key(e) ==> g@.has_dart(edge_to_dart@[e]@),
                    forall|e: int|
                        0 <= e < mesh.edges_assignment@.len() ==> assigned(
                            (#[trigger] mesh.edges_assignment@[e])@,
                        ) is Some,
                decreases mesh.edges_assignment@.len() - edge,
            {
                let ghost old_angles = fold_angle@;
                match interpret_assignment(&mesh.edges_assignment[edge]) {
                    Ok(Some(degrees)) => {
                        let d: Dart = match edge_to_dart.get(&edge) {
                            Some(d) => *d,
                            None => {
                                return Err(Error::FoldInvalidReference("edge".to_owned(), edge));
                            },
                        };
                        fold_angle.insert(&g, d, FoldAngle::Assigned(degrees));
                    },
                    _ => {},
                }
                proof {
                    lemma_filled(
                        g@,
                        Alphas::edge(),
                        edge_to_dart@,
                        wanted_angles(mesh),
                        angle_like::<A>(),
                        edge as int,
                        old_angles,
                        fold_angle@,
                    );
                }
                edge += 1;
            }
        } else {
            let mut edge: usize = 0;
            while edge < mesh.edges_fold_angle.len()
                invariant
                    !missing(mesh),
                    g.wf(),
                    traced(mesh) == Ok::<Traced, Fault>(st),
                    st.edges == edge_to_dart@,
                    fold_angle.mask() == Alphas::edge(),
                    mesh.edges_fold_angle@.len() != 0,
                    filled(
                        g@,
                        Alphas::edge(),
                        edge_to_dart@,
                        wanted_angles(mesh),
                        angle_like::<A>(),
                        edge as int,
                        fold_angle@,
                    ),
                    edge <= mesh.edges_fold_angle@.len(),
                    forall|e: usize| #[trigger]
                        edge_to_dart@.contains_key(e) ==> g@.has_dart(edge_to_dart@[e]@),
                decreases mesh.edges_fold_angle@.len() - edge,
            {
                let d: Dart = match edge_to_dart.get(&edge) {
                    Some(d) => *d,
                    None => {
                        return Err(Error::FoldInvalidReference("edge".to_owned(), edge));
                    },
                };
                let ghost old_angles = fold_angle@;
                match &mesh.edges_fold_angle[edge] {
                    Some(angle) => {
                        let copy = angle.clone();
                        let value = FoldAngle::Given(copy);
                        fold_angle.insert(&g, d, value);
                        proof {
                            assert forall|e: usize|
                                #![trigger fold_angle@.contains_key(e)]
                                #![trigger fold_angle@[e]]
                                g@.reaches(Alphas::edge(), d@, e as int) implies fold_angle@.contains_key(
                                e,
                            ) && angle_like::<A>()(FoldAngle::Given(*angle), fold_angle@[e]) by {
                                assert(cloned(value, fold_angle@[e]));
                                assert(cloned(*angle, copy) && cloned(
                                    FoldAngle::Given(copy),
                                    fold_angle@[e],
                                ));
                                let w = FoldAngle::Given(*angle);
                                assert(w is Given && w->Given_0 == *angle);
                                assert(given_like(w->Given_0, copy, fold_angle@[e]));
                                assert(is_angle_like(w, fold_angle@[e]));
                            }
                        }
                    },
                    None => {
                        return Err(Error::FoldBadAngle);
                    },
                }
                proof {
                    lemma_filled(
                        g@,
                        Alphas::edge(),
                        edge_to_dart@,
                        wanted_angles(mesh),
                        angle_like::<A>(),
                        edge as int,
                        old_angles,
                        fold_angle@,
                    );
                }
                edge += 1;
            }
        }
        let cp = CreasePattern { g, orientation, vertices_coords, fold_angle };
        let ft = FoldTracking { face_to_dart, edge_to_dart, vertex_to_dart };
        proof {
            assert(cp.wf());
            assert(traced(mesh) == Ok::<Traced, Fault>(
                Traced {
                    g: cp.map()@,
                    faces: ft.face_to_dart@,
                    edges: ft.edge_to_dart@,
                    vertices: ft.vertex_to_dart@,
                    orientation: cp.pointing(),
                },
            ));
            assert(cp.places().mask() == Alphas::vertex());
            assert(cp.angles().mask() == Alphas::edge());
            assert forall|f: usize|
                f < mesh.faces_vertices@.len() && f < mesh.faces_edges@.len() implies #[trigger] ft.face_to_dart@.contains_key(
                f,
            ) by {
                assert(st.faces.contains_key(f));
            }
            assert forall|f: usize| #[trigger] ft.face_to_dart@.contains_key(f) implies cp.map()@.has_dart(
                ft.face_to_dart@[f]@,
            ) by {}
            assert forall|e: usize| #[trigger] ft.edge_to_dart@.contains_key(e) implies cp.map()@.has_dart(
                ft.edge_to_dart@[e]@,
            ) by {}
            assert forall|v: usize| #[trigger] ft.vertex_to_dart@.contains_key(v) implies cp.map()@.has_dart(
                ft.vertex_to_dart@[v]@,
            ) by {}
        }
        Ok((cp, ft))
    }
}

/// What reading the faces of a record makes: the map, the darts kept, and
/// which darts point counter-clockwise.
struct Tracing {
    g: GMap,
    face_to_dart: HashMap<usize, Dart>,
    edge_to_dart: HashMap<usize, Dart>,
    vertex_to_dart: HashMap<usize, Dart>,
    orientation: HashMap<usize, bool>,
}

impl View for Tracing {
    type V = Traced;

    closed spec fn view(&self) -> Traced {
        Traced {
            g: self.g@,
            faces: self.face_to_dart@,
            edges: self.edge_to_dart@,
            vertices: self.vertex_to_dart@,
            orientation: self.orientation@,
        }
    }
}

impl Tracing {
    /// The map is a valid map of dimension 2, and the darts kept are darts
    /// of it.
    closed spec fn wf(&self) -> bool {
        &&& self.g.wf()
        &&& self.g@.dimension == 2
        &&& forall|f: usize| #[trigger]
            self.face_to_dart@.contains_key(f) ==> self.g@.has_dart(self.face_to_dart@[f]@)
        &&& forall|e: usize| #[trigger]
            self.edge_to_dart@.contains_key(e) ==> self.g@.has_dart(self.edge_to_dart@[e]@)
        &&& forall|v: usize| #[trigger]
            self.vertex_to_dart@.contains_key(v) ==> self.g@.has_dart(self.vertex_to_dart@[v]@)
    }

    /// Reads one corner of a face.
    fn trace_corner(&mut self, d: Dart, vertex: usize, edge: usize) -> (r: Option<Dart>)
        requires
            old(self).wf(),
            old(self)@.g.has_dart(d@),
        ensures
            final(self).wf(),
            final(self)@.faces == old(self)@.faces,
            match r {
                Some(next) => corner_step(old(self)@, d@, vertex, edge) == Some((final(self)@, next@))
                    && final(self)@.g.has_dart(next@),
                None => corner_step(old(self)@, d@, vertex, edge) is None,
            },
    {
        let ghost st = self@;
        let step: [usize; 2] = [1, 0];
        proof {
            assert(crate::gmap::ints(step@) =~= seq![1int, 0int]);
            st.g.lemma_step(d@, 1, 0);
            assert(Dart(d@ as usize) == d);
        }
        let other: Option<Dart> = match self.edge_to_dart.get(&edge) {
            Some(other_edge) => Some(*other_edge),
            None => None,
        };
        let clockwise = self.g.al1(d, 1);
        let next = self.g.al(d, &step);
        proof {
            assert(Dart(next@ as usize) == next);
            assert(st.g.al(d@, 1) as usize == clockwise.0);
        }
        match other {
            Some(other_edge) => {
                let back = self.g.al1(other_edge, 0);
                match self.g.sew(2, next, back) {
                    Ok(_) => {},
                    Err(_) => {
                        return None;
                    },
                }
            },
            None => {
                self.edge_to_dart.insert(edge, next);
            },
        }
        if !self.vertex_to_dart.contains_key(&vertex) {
            self.vertex_to_dart.insert(vertex, d);
        }
        self.orientation.insert(d.0, true);
        self.orientation.insert(clockwise.0, false);
        Some(next)
    }

    /// Reads one face.
    fn trace_face(&mut self, face: usize, vertices: &Vec<usize>, edges: &Vec<usize>) -> (r: Result<
        (),
        Error,
    >)
        requires
            old(self).wf(),
        ensures
            match r {
                Ok(_) => final(self).wf() && face_step(old(self)@, face, vertices@, edges@) == Ok::<
                    Traced,
                    Fault,
                >(final(self)@) && final(self)@.faces.contains_key(face) && forall|f: usize|
                    old(self)@.faces.contains_key(f) ==> #[trigger] final(self)@.faces.contains_key(f),
                Err(Error::FoldBadFace(f)) => f == face && face_step(
                    old(self)@,
                    face,
                    vertices@,
                    edges@,
                ) == Err::<Traced, Fault>(Fault::BadFace(face)),
                Err(Error::FoldNonManifold) => face_step(old(self)@, face, vertices@, edges@) == Err::<
                    Traced,
                    Fault,
                >(Fault::NonManifold),
                Err(_) => false,
            },
    {
        if vertices.len() != edges.len() || vertices.len() == 0 {
            return Err(Error::FoldBadFace(face));
        }
        let ghost st = self@;
        let mut d = self.g.add_polygon(vertices.len());
        proof {
            st.g.lemma_with_chain_valid(1, 0, vertices@.len() as int, true);
            assert(Dart(st.g.ndarts() as usize) == d);
        }
        self.face_to_dart.insert(face, d);
        let ghost start = self@;
        let ghost d0 = d@;
        proof {
            lemma_corners_read(start, d0, vertices@, edges@, 0);
            assert(start == Traced {
                g: st.g.with_cycle(1, 0, vertices@.len() as int),
                faces: st.faces.insert(face, Dart(st.g.ndarts() as usize)),
                ..st
            });
        }
        let mut i: usize = 0;
        while i < vertices.len()
            invariant
                i <= vertices@.len(),
                vertices@.len() == edges@.len(),
                vertices@.len() != 0,
                start == (Traced {
                    g: st.g.with_cycle(1, 0, vertices@.len() as int),
                    faces: st.faces.insert(face, Dart(st.g.ndarts() as usize)),
                    ..st
                }),
                st == old(self)@,
                d0 == st.g.ndarts(),
                self.wf(),
                self@.g.has_dart(d@),
                self@.faces == start.faces,
                corners_read(start, d0, vertices@, edges@, i as int) == Some((self@, d@)),
            decreases vertices@.len() - i,
        {
            proof {
                lemma_corners_read(start, d0, vertices@, edges@, i as int);
            }
            match self.trace_corner(d, vertices[i], edges[i]) {
                Some(next) => {
                    d = next;
                },
                None => {
                    proof {
                        lemma_corners_stop(
                            start,
                            d0,
                            vertices@,
                            edges@,
                            i + 1,
                            vertices@.len() as int,
                        );
                    }
                    return Err(Error::FoldNonManifold);
                },
            }
            i += 1;
        }
        Ok(())
    }
}

/// Reads the faces of a record.
fn trace<P, A>(mesh: &Mesh<P, A>) -> (r: Result<Tracing, Error>)
    ensures
        match r {
            Ok(t) => t.wf() && traced(mesh) == Ok::<Traced, Fault>(t@) && forall|f: usize|
                f < face_count(mesh) ==> #[trigger] t@.faces.contains_key(f),
            Err(Error::FoldBadFace(f)) => traced(mesh) == Err::<Traced, Fault>(Fault::BadFace(f)),
            Err(Error::FoldNonManifold) => traced(mesh) == Err::<Traced, Fault>(Fault::NonManifold),
            Err(_) => false,
        },
{
    let g = match GMap::empty(2) {
        Ok(g) => g,
        Err(e) => {
            return Err(Error::FoldNonManifold);
        },
    };
    let mut t = Tracing {
        g,
        face_to_dart: HashMap::new(),
        edge_to_dart: HashMap::new(),
        vertex_to_dart: HashMap::new(),
        orientation: HashMap::new(),
    };
    proof {
        lemma_faces_read(mesh, 0);
        assert(t@.faces =~= Map::<usize, Dart>::empty());
        assert(t@.edges =~= Map::<usize, Dart>::empty());
        assert(t@.vertices =~= Map::<usize, Dart>::empty());
        assert(t@.orientation =~= Map::<usize, bool>::empty());
        assert(t@ == untraced());
    }
    let mut face: usize = 0;
    while face < mesh.faces_vertices.len() && face < mesh.faces_edges.len()
        invariant
            face <= face_count(mesh),
            t.wf(),
            faces_read(mesh, face as int) == Ok::<Traced, Fault>(t@),
            forall|f: usize| f < face ==> #[trigger] t@.faces.contains_key(f),
        decreases face_count(mesh) - face,
    {
        proof {
            lemma_faces_read(mesh, face as int);
        }
        match t.trace_face(face, &mesh.faces_vertices[face], &mesh.faces_edges[face]) {
            Ok(()) => {},
            Err(e) => {
                proof {
                    lemma_faces_stop(mesh, face + 1, face_count(mesh));
                }
                return Err(e);
            },
        }
        face += 1;
    }
    Ok(t)
}

/// One step of laying a folded pattern out: from the face of `face`, which
/// is laid out, over the crease of `edge` to the face of `other`.
pub struct Crossing {
    /// The dart of the face that is laid out.
    pub face: Dart,
    /// The dart of that face on the crease, pointing counter-clockwise.
    pub edge: Dart,
    /// The dart of the face beyond the crease.
    pub other: Dart,
    /// Whether the face beyond the crease is laid out by this step; else it
    /// was laid out before, and this step comes to it by another way.
    pub first: bool,
    /// The vertices of the face beyond the crease that get their place by
    /// this step.
    pub vertices: Vec<Dart>,
}

/// The order in which the faces of a pattern are laid out: the fixed face
/// with its vertices, then the crossings in turn.
pub struct FoldOrder {
    pub fixed_face: Dart,
    pub vertices: Vec<Dart>,
    pub crossings: Vec<Crossing>,
}

/// The dart `e` lies in the orbit of one of the darts `bases`.
pub open spec fn covered(g: GMapView, a: Alphas, bases: Seq<int>, e: int) -> bool {
    exists|j: int| 0 <= j < bases.len() && g.reaches(a, #[trigger] bases[j], e)
}

/// The faces laid out before crossing `k`, by their darts: the fixed face,
/// and the faces beyond the creases of the crossings that were the first to
/// come to them.
pub open spec fn laid_faces(fixed: int, crossings: Seq<Crossing>, k: int) -> Seq<int>
    decreases k,
{
    if k <= 0 {
        seq![fixed]
    } else {
        let before = laid_faces(fixed, crossings, k - 1);
        if crossings[k - 1].first {
            before.push(crossings[k - 1].other@)
        } else {
            before
        }
    }
}

/// The vertices that have their place before crossing `k`: those of the
/// fixed face, and those that the crossings before gave one.
pub open spec fn placed_vertices(start: Seq<Dart>, crossings: Seq<Crossing>, k: int) -> Seq<int>
    decreases k,
{
    if k <= 0 {
        dart_seq(start)
    } else {
        placed_vertices(start, crossings, k - 1) + dart_seq(crossings[k - 1].vertices@)
    }
}

/// The darts of the creases crossed before crossing `k`.
pub open spec fn crossed_edges(crossings: Seq<Crossing>, k: int) -> Seq<int> {
    Seq::new(k as nat, |j: int| crossings[j].edge@)
}

/// Those of the first `t` darts of `l` whose vertex is neither the vertex of
/// one of `bases` nor that of an earlier one of them.
pub open spec fn fresh(g: GMapView, bases: Seq<int>, l: Seq<int>, t: int) -> Seq<int>
    decreases t,
{
    if t <= 0 {
        Seq::empty()
    } else {
        let before = fresh(g, bases, l, t - 1);
        if covered(g, Alphas::vertex(), bases + before, l[t - 1]) {
            before
        } else {
            before.push(l[t - 1])
        }
    }
}

/// What holds of crossing `k`: it goes from a face that is laid out, over a
/// crease that was not crossed before, to the face beyond; it is the first
/// to come to that face exactly when the face is not laid out yet, and then
/// the vertices of that face that have no place yet get theirs.
pub open spec fn crossing_ok(
    g: GMapView,
    fixed: int,
    start: Seq<Dart>,
    crossings: Seq<Crossing>,
    k: int,
) -> bool {
    let c = crossings[k];
    &&& g.has_dart(c.face@)
    &&& g.has_dart(c.edge@)
    &&& g.has_dart(c.other@)
    &&& !g.is_free(c.edge@, 2)
    &&& c.other@ == g.al(g.al(c.edge@, 2), 0)
    &&& covered(g, Alphas::face(), laid_faces(fixed, crossings, k), c.face@)
    &&& c.first == !covered(g, Alphas::face(), laid_faces(fixed, crossings, k), c.other@)
    &&& !covered(g, Alphas::edge(), crossed_edges(crossings, k), c.edge@)
    &&& dart_seq(c.vertices@) == (if c.first {
        let l = g.incident(Alphas::vertex(), Alphas::face(), c.other@);
        fresh(g, placed_vertices(start, crossings, k), l, l.len() as int)
    } else {
        Seq::empty()
    })
}

/// What holds of the crossings made so far.
pub open spec fn crossing_facts(
    g: GMapView,
    fixed: int,
    start: Seq<Dart>,
    crossings: Seq<Crossing>,
) -> bool {
    forall|k: int| 0 <= k < crossings.len() ==> #[trigger] crossing_ok(g, fixed, start, crossings, k)
}

/// One more dart covers its orbit too.
pub proof fn lemma_cover_push(g: GMapView, a: Alphas, bases: Seq<int>, x: int, e: int)
    ensures
        covered(g, a, bases.push(x), e) == (covered(g, a, bases, e) || g.reaches(a, x, e)),
{
    let more = bases.push(x);
    if covered(g, a, more, e) {
        let j = choose|j: int| 0 <= j < more.len() && g.reaches(a, #[trigger] more[j], e);
        if j < bases.len() {
            assert(bases[j] == more[j]);
        }
    }
    if covered(g, a, bases, e) {
        let j = choose|j: int| 0 <= j < bases.len() && g.reaches(a, #[trigger] bases[j], e);
        assert(more[j] == bases[j]);
    }
    if g.reaches(a, x, e) {
        assert(more[bases.len() as int] == x);
    }
}

/// What was before crossing `k` does not change with a later crossing.
pub proof fn lemma_crossings_prefix(
    fixed: int,
    start: Seq<Dart>,
    crossings: Seq<Crossing>,
    c: Crossing,
    k: int,
)
    requires
        0 <= k <= crossings.len(),
    ensures
        laid_faces(fixed, crossings.push(c), k) == laid_faces(fixed, crossings, k),
        placed_vertices(start, crossings.push(c), k) == placed_vertices(start, crossings, k),
        crossed_edges(crossings.push(c), k) == crossed_edges(crossings, k),
    decreases k,
{
    if k > 0 {
        lemma_crossings_prefix(fixed, start, crossings, c, k - 1);
        assert(crossings.push(c)[k - 1] == crossings[k - 1]);
    }
    assert(crossed_edges(crossings.push(c), k) =~= crossed_edges(crossings, k));
}

/// One more crossing keeps what holds of the crossings.
pub proof fn lemma_crossing_added(
    g: GMapView,
    fixed: int,
    start: Seq<Dart>,
    crossings: Seq<Crossing>,
    c: Crossing,
)
    requires
        crossing_facts(g, fixed, start, crossings),
        crossing_ok(g, fixed, start, crossings.push(c), crossings.len() as int),
    ensures
        crossing_facts(g, fixed, start, crossings.push(c)),
        laid_faces(fixed, crossings.push(c), crossings.len() as int + 1) == (if c.first {
            laid_faces(fixed, crossings, crossings.len() as int).push(c.other@)
        } else {
            laid_faces(fixed, crossings, crossings.len() as int)
        }),
        placed_vertices(start, crossings.push(c), crossings.len() as int + 1) == placed_vertices(
            start,
            crossings,
            crossings.len() as int,
        ) + dart_seq(c.vertices@),
        crossed_edges(crossings.push(c), crossings.len() as int + 1) == crossed_edges(
            crossings,
            crossings.len() as int,
        ).push(c.edge@),
{
    let more = crossings.push(c);
    let n = crossings.len() as int;
    lemma_crossings_prefix(fixed, start, crossings, c, n);
    assert(more[n] == c);
    assert(crossed_edges(more, n + 1) =~= crossed_edges(crossings, n).push(c.edge@));
    assert forall|k: int| 0 <= k < more.len() implies #[trigger] crossing_ok(
        g,
        fixed,
        start,
        more,
        k,
    ) by {
        if k < n {
            lemma_crossings_prefix(fixed, start, crossings, c, k);
            assert(more[k] == crossings[k]);
            assert(crossing_ok(g, fixed, start, crossings, k));
        }
    }
}

/// Marks the darts of the `i`-cell of `d`.
fn mark(g: &GMap, marks: &mut Vec<bool>, d: Dart, i: usize)
    requires
        g.wf_links(),
        g@.has_dart(d@),
        i < 32,
        old(marks)@.len() == g@.ndarts(),
    ensures
        final(marks)@.len() == g@.ndarts(),
        forall|e: int|
            0 <= e < g@.ndarts() ==> #[trigger] final(marks)@[e] == (old(marks)@[e] || g@.reaches(
                Alphas::spec_cell(i as int),
                d@,
                e,
            )),
{
    let around = g.cell(d, i);
    let ghost xs = dart_seq(around@);
    let mut k: usize = 0;
    while k < around.len()
        invariant
            k <= around@.len(),
            xs == dart_seq(around@),
            marks@.len() == g@.ndarts(),
            forall|j: int| 0 <= j < around@.len() ==> g@.has_dart(#[trigger] around@[j]@),
            forall|e: int|
                0 <= e < g@.ndarts() ==> #[trigger] marks@[e] == (old(marks)@[e] || listed(
                    xs.take(k as int),
                    e,
                )),
        decreases around@.len() - k,
    {
        let x: Dart = around[k];
        proof {
            assert(g@.has_dart(around@[k as int]@));
        }
        let ghost before = marks@;
        marks.set(x.0, true);
        proof {
            let l0 = xs.take(k as int);
            let l1 = xs.take(k + 1);
            assert(l1[k as int] == x@);
            assert forall|e: int| 0 <= e < g@.ndarts() implies #[trigger] marks@[e] == (old(
                marks,
            )@[e] || listed(l1, e)) by {
                assert(before[e] == (old(marks)@[e] || listed(l0, e)));
                if listed(l0, e) {
                    let j = choose|j: int| 0 <= j < l0.len() && #[trigger] l0[j] == e;
                    assert(l1[j] == e);
                }
                if listed(l1, e) {
                    let j = choose|j: int| 0 <= j < l1.len() && #[trigger] l1[j] == e;
                    if j < k {
                        assert(l0[j] == e);
                    }
                }
            }
        }
        k += 1;
    }
    proof {
        assert(xs.take(k as int) =~= xs);
    }
}

/// Every crease of the face of `f` is marked.
pub open spec fn all_crossed(g: GMapView, f: int, marks: Seq<bool>) -> bool {
    forall|x: int| #[trigger]
        listed(g.turn(f), x) && !g.is_free(x, 2) ==> 0 <= x < marks.len() && marks[x]
}

/// The order in which the faces of a pattern are laid out from a fixed
/// face, breadth first: the faces wait in a line; the face at its head is
/// walked counter-clockwise, and over every crease that was not crossed
/// before the face beyond is come to. A face that is come to first is laid
/// out, those of its vertices that have no place yet get one, and it joins
/// the line.
pub fn fold_order(g: &GMap, orientation: &HashMap<usize, bool>, fixed_face: Dart) -> (r: FoldOrder)
    requires
        g.wf(),
        g@.dimension == 2,
        g@.has_dart(fixed_face@),
        orientation@.contains_key(fixed_face.0),
    ensures
        r.fixed_face@ == (if orientation@[fixed_face.0] {
            fixed_face@
        } else {
            g@.al(fixed_face@, 0)
        }),
        dart_seq(r.vertices@) == g@.incident(Alphas::vertex(), Alphas::face(), r.fixed_face@),
        crossing_facts(g@, r.fixed_face@, r.vertices@, r.crossings@),
        forall|j: int, x: int|
            0 <= j < laid_faces(r.fixed_face@, r.crossings@, r.crossings@.len() as int).len()
                && listed(
                g@.turn(
                    #[trigger] laid_faces(r.fixed_face@, r.crossings@, r.crossings@.len() as int)[j],
                ),
                x,
            ) && !g@.is_free(x, 2) ==> #[trigger] covered(
                g@,
                Alphas::edge(),
                crossed_edges(r.crossings@, r.crossings@.len() as int),
                x,
            ),
{
    let n: usize = g.ndarts();
    let fixed: Dart = match orientation.get(&fixed_face.0) {
        Some(ccw) => if *ccw {
            fixed_face
        } else {
            g.al1(fixed_face, 0)
        },
        None => fixed_face,
    };
    let step: [usize; 2] = [1, 0];
    let over: [usize; 2] = [2, 0];
    let mut laid_out: Vec<bool> = crate::orbit::all_false(n);
    let mut placed: Vec<bool> = crate::orbit::all_false(n);
    let mut crossed: Vec<bool> = crate::orbit::all_false(n);
    let mut frontier: Vec<Dart> = Vec::new();
    let mut crossings: Vec<Crossing> = Vec::new();
    proof {
        Alphas::lemma_named_cells();
        assert(crate::gmap::ints(step@) =~= seq![1int, 0int]);
        assert(crate::gmap::ints(over@) =~= seq![2int, 0int]);
    }
    frontier.push(fixed);
    mark(g, &mut laid_out, fixed, 2);
    let vertices = g.one_dart_per_incident_cell(fixed, 0, 2);
    let mut v: usize = 0;
    while v < vertices.len()
        invariant
            g.wf(),
            n == g@.ndarts(),
            v <= vertices@.len(),
            placed@.len() == n,
            Alphas::spec_cell(0) == Alphas::vertex(),
            forall|j: int| 0 <= j < vertices@.len() ==> g@.has_dart(#[trigger] vertices@[j]@),
            forall|e: int|
                0 <= e < n ==> #[trigger] placed@[e] == covered(
                    g@,
                    Alphas::vertex(),
                    dart_seq(vertices@).take(v as int),
                    e,
                ),
        decreases vertices@.len() - v,
    {
        let ghost before = placed@;
        mark(g, &mut placed, vertices[v], 0);
        proof {
            let l = dart_seq(vertices@);
            assert(l.take(v + 1) =~= l.take(v as int).push(vertices@[v as int]@));
            assert forall|e: int| 0 <= e < n implies #[trigger] placed@[e] == covered(
                g@,
                Alphas::vertex(),
                l.take(v + 1),
                e,
            ) by {
                lemma_cover_push(g@, Alphas::vertex(), l.take(v as int), vertices@[v as int]@, e);
                assert(before[e] == covered(g@, Alphas::vertex(), l.take(v as int), e));
            }
        }
        v += 1;
    }
    let mut head: usize = 0;
    proof {
        g@.lemma_reaches_refl(Alphas::face(), fixed@);
        assert(dart_seq(vertices@).take(v as int) =~= dart_seq(vertices@));
        assert(dart_seq(frontier@) =~= seq![fixed@]);
        assert forall|e: int| 0 <= e < n implies #[trigger] laid_out@[e] == covered(
            g@,
            Alphas::face(),
            seq![fixed@],
            e,
        ) by {
            lemma_cover_push(g@, Alphas::face(), Seq::empty(), fixed@, e);
            assert(Seq::<int>::empty().push(fixed@) =~= seq![fixed@]);
            assert(!covered(g@, Alphas::face(), Seq::empty(), e));
        }
        assert forall|e: int| 0 <= e < n implies #[trigger] crossed@[e] == covered(
            g@,
            Alphas::edge(),
            crossed_edges(crossings@, 0),
            e,
        ) by {}
    }
    while head < frontier.len()
        invariant
            g.wf(),
            g@.dimension == 2,
            n == g@.ndarts(),
            crate::gmap::ints(step@) == seq![1int, 0int],
            crate::gmap::ints(over@) == seq![2int, 0int],
            Alphas::spec_cell(0) == Alphas::vertex(),
            Alphas::spec_cell(1) == Alphas::edge(),
            Alphas::spec_cell(2) == Alphas::face(),
            g@.has_dart(fixed@),
            head <= frontier@.len(),
            laid_out@.len() == n,
            placed@.len() == n,
            crossed@.len() == n,
            dart_seq(frontier@) == laid_faces(fixed@, crossings@, crossings@.len() as int),
            forall|e: int|
                0 <= e < n ==> #[trigger] laid_out@[e] == covered(
                    g@,
                    Alphas::face(),
                    dart_seq(frontier@),
                    e,
                ),
            forall|e: int|
                0 <= e < n ==> #[trigger] placed@[e] == covered(
                    g@,
                    Alphas::vertex(),
                    placed_vertices(vertices@, crossings@, crossings@.len() as int),
                    e,
                ),
            forall|e: int|
                0 <= e < n ==> #[trigger] crossed@[e] == covered(
                    g@,
                    Alphas::edge(),
                    crossed_edges(crossings@, crossings@.len() as int),
                    e,
                ),
            forall|j: int| 0 <= j < frontier@.len() ==> g@.has_dart(#[trigger] frontier@[j]@),
            forall|j1: int, j2: int|
                0 <= j1 < j2 < frontier@.len() ==> #[trigger] frontier@[j1]@ != #[trigger] frontier@[j2]@,
            crossing_facts(g@, fixed@, vertices@, crossings@),
            forall|j: int| 0 <= j < head ==> all_crossed(g@, (#[trigger] frontier@[j])@, crossed@),
        decreases n - head,
    {
        proof {
            let s = dart_seq(frontier@);
            assert forall|i: int| 0 <= i < s.len() implies 0 <= #[trigger] s[i] < n by {
                assert(g@.has_dart(frontier@[i]@));
            }
            assert forall|i: int, j: int| 0 <= i < j < s.len() implies s[i] != s[j] by {
                assert(frontier@[i]@ != frontier@[j]@);
            }
            lemma_distinct_bounded(s, n as int);
            assert(g@.has_dart(frontier@[head as int]@));
        }
        let my_face: Dart = frontier[head];
        let around = g.cycle(my_face, &step);
        let ghost xs = dart_seq(around@);
        proof {
            assert(g@.is_turn(g@.face_step(), my_face@, xs)) by {
                assert forall|k: int| 0 <= k < xs.len() implies xs[k] == #[trigger] crate::finite::iterate(
                    g@.face_step(),
                    k as nat,
                    my_face@,
                ) by {
                    assert(xs[k] == around@[k]@);
                }
            }
            g@.lemma_turn_unique(g@.face_step(), my_face@, xs, g@.turn(my_face@));
        }
        let mut t: usize = 0;
        while t < around.len()
            invariant
                g.wf(),
                g@.dimension == 2,
                n == g@.ndarts(),
                crate::gmap::ints(over@) == seq![2int, 0int],
                Alphas::spec_cell(0) == Alphas::vertex(),
                Alphas::spec_cell(1) == Alphas::edge(),
                Alphas::spec_cell(2) == Alphas::face(),
                g@.has_dart(fixed@),
                g@.has_dart(my_face@),
                head < frontier@.len(),
                my_face == frontier@[head as int],
                t <= around@.len(),
                laid_out@.len() == n,
                placed@.len() == n,
                crossed@.len() == n,
                forall|j: int| 0 <= j < around@.len() ==> g@.has_dart(#[trigger] around@[j]@),
                dart_seq(frontier@) == laid_faces(fixed@, crossings@, crossings@.len() as int),
                forall|e: int|
                    0 <= e < n ==> #[trigger] laid_out@[e] == covered(
                        g@,
                        Alphas::face(),
                        dart_seq(frontier@),
                        e,
                    ),
                forall|e: int|
                    0 <= e < n ==> #[trigger] placed@[e] == covered(
                        g@,
                        Alphas::vertex(),
                        placed_vertices(vertices@, crossings@, crossings@.len() as int),
                        e,
                    ),
                forall|e: int|
                    0 <= e < n ==> #[trigger] crossed@[e] == covered(
                        g@,
                        Alphas::edge(),
                        crossed_edges(crossings@, crossings@.len() as int),
                        e,
                    ),
                forall|j: int| 0 <= j < frontier@.len() ==> g@.has_dart(#[trigger] frontier@[j]@),
                forall|j1: int, j2: int|
                    0 <= j1 < j2 < frontier@.len() ==> #[trigger] frontier@[j1]@
                        != #[trigger] frontier@[j2]@,
                crossing_facts(g@, fixed@, vertices@, crossings@),
                xs == dart_seq(around@),
                xs == g@.turn(my_face@),
                forall|j: int|
                    0 <= j < head ==> all_crossed(g@, (#[trigger] frontier@[j])@, crossed@),
                forall|k: int|
                    0 <= k < t && !g@.is_free(xs[k], 2) ==> 0 <= xs[k] < n && crossed@[#[trigger] xs[k]],
            decreases around@.len() - t,
        {
            let edge: Dart = around[t];
            proof {
                assert(g@.has_dart(around@[t as int]@));
                assert(xs[t as int] == edge@);
                g@.lemma_reaches_refl(Alphas::edge(), edge@);
            }
            if !crossed[edge.0] && !g.is_free(edge, 2) {
                let made = cross(
                    g,
                    my_face,
                    edge,
                    &mut laid_out,
                    &mut placed,
                    Ghost(dart_seq(frontier@)),
                    Ghost(placed_vertices(vertices@, crossings@, crossings@.len() as int)),
                );
                let ghost old_frontier = frontier@;
                let ghost old_crossings = crossings@;
                let ghost old_crossed = crossed@;
                if made.first {
                    frontier.push(made.other);
                    proof {
                        assert(dart_seq(frontier@) =~= dart_seq(old_frontier).push(made.other@));
                        assert forall|j1: int, j2: int|
                            0 <= j1 < j2 < frontier@.len() implies #[trigger] frontier@[j1]@
                            != #[trigger] frontier@[j2]@ by {
                            if j2 == old_frontier.len() {
                                assert(dart_seq(old_frontier)[j1] == old_frontier[j1]@);
                                g@.lemma_reaches_refl(Alphas::face(), old_frontier[j1]@);
                                g@.lemma_reaches_refl(Alphas::face(), made.other@);
                            } else {
                                assert(old_frontier[j1]@ != old_frontier[j2]@);
                            }
                        }
                    }
                }
                mark(g, &mut crossed, edge, 1);
                proof {
                    assert forall|j: int| 0 <= j < head implies all_crossed(
                        g@,
                        (#[trigger] frontier@[j])@,
                        crossed@,
                    ) by {
                        assert(frontier@[j] == old_frontier[j]);
                        assert(all_crossed(g@, old_frontier[j]@, old_crossed));
                        assert forall|x: int|
                            #[trigger] listed(g@.turn(frontier@[j]@), x) && !g@.is_free(x, 2) implies 0
                            <= x < crossed@.len() && crossed@[x] by {
                            assert(listed(g@.turn(old_frontier[j]@), x));
                            assert(all_crossed(g@, old_frontier[j]@, old_crossed));
                            assert(0 <= x < old_crossed.len() && old_crossed[x]);
                        }
                    }
                    let k = old_crossings.len() as int;
                    let more = old_crossings.push(made);
                    lemma_crossings_prefix(fixed@, vertices@, old_crossings, made, k);
                    assert(more[k] == made);
                    assert(dart_seq(old_frontier)[head as int] == my_face@);
                    g@.lemma_reaches_refl(Alphas::face(), my_face@);
                    assert(covered(g@, Alphas::face(), dart_seq(old_frontier), my_face@));
                    assert(crossing_ok(g@, fixed@, vertices@, more, k));
                    lemma_crossing_added(g@, fixed@, vertices@, old_crossings, made);
                    assert forall|e: int| 0 <= e < n implies #[trigger] crossed@[e] == covered(
                        g@,
                        Alphas::edge(),
                        crossed_edges(more, k + 1),
                        e,
                    ) by {
                        lemma_cover_push(
                            g@,
                            Alphas::edge(),
                            crossed_edges(old_crossings, k),
                            edge@,
                            e,
                        );
                        assert(old_crossed[e] == covered(
                            g@,
                            Alphas::edge(),
                            crossed_edges(old_crossings, k),
                            e,
                        ));
                    }
                }
                crossings.push(made);
            }
            t += 1;
        }
        proof {
            assert forall|x: int| #[trigger] listed(g@.turn(my_face@), x) && !g@.is_free(x, 2) implies 0
                <= x < crossed@.len() && crossed@[x] by {
                let k = choose|k: int| 0 <= k < xs.len() && #[trigger] xs[k] == x;
                assert(crossed@[xs[k]]);
            }
            assert(all_crossed(g@, frontier@[head as int]@, crossed@));
        }
        head += 1;
    }
    proof {
        let laid = laid_faces(fixed@, crossings@, crossings@.len() as int);
        assert forall|j: int, x: int|
            0 <= j < laid.len() && listed(g@.turn(#[trigger] laid[j]), x) && !g@.is_free(
                x,
                2,
            ) implies #[trigger] covered(
            g@,
            Alphas::edge(),
            crossed_edges(crossings@, crossings@.len() as int),
            x,
        ) by {
            assert(laid[j] == frontier@[j]@);
            assert(all_crossed(g@, frontier@[j]@, crossed@));
            assert(listed(g@.turn(frontier@[j]@), x));
            assert(crossed@[x]);
            assert(0 <= x < n);
            assert(crossed@[x] == covered(
                g@,
                Alphas::edge(),
                crossed_edges(crossings@, crossings@.len() as int),
                x,
            ));
        }
    }
    FoldOrder { fixed_face: fixed, vertices, crossings }
}

/// Comes from the face of `my_face`, over the crease of `edge`, to the face
/// beyond: where that face is not laid out yet, it is laid out, and those of
/// its vertices that have no place yet get one.
fn cross(
    g: &GMap,
    my_face: Dart,
    edge: Dart,
    laid_out: &mut Vec<bool>,
    placed: &mut Vec<bool>,
    Ghost(faces): Ghost<Seq<int>>,
    Ghost(places): Ghost<Seq<int>>,
) -> (r: Crossing)
    requires
        g.wf(),
        g@.dimension == 2,
        g@.has_dart(my_face@),
        g@.has_dart(edge@),
        !g@.is_free(edge@, 2),
        old(laid_out)@.len() == g@.ndarts(),
        old(placed)@.len() == g@.ndarts(),
        forall|e: int|
            0 <= e < g@.ndarts() ==> #[trigger] old(laid_out)@[e] == covered(
                g@,
                Alphas::face(),
                faces,
                e,
            ),
        forall|e: int|
            0 <= e < g@.ndarts() ==> #[trigger] old(placed)@[e] == covered(
                g@,
                Alphas::vertex(),
                places,
                e,
            ),
    ensures
        final(laid_out)@.len() == g@.ndarts(),
        final(placed)@.len() == g@.ndarts(),
        r.face == my_face,
        r.edge == edge,
        g@.has_dart(r.other@),
        r.other@ == g@.al(g@.al(edge@, 2), 0),
        r.first == !covered(g@, Alphas::face(), faces, r.other@),
        dart_seq(r.vertices@) == (if r.first {
            let l = g@.incident(Alphas::vertex(), Alphas::face(), r.other@);
            fresh(g@, places, l, l.len() as int)
        } else {
            Seq::empty()
        }),
        forall|e: int|
            0 <= e < g@.ndarts() ==> #[trigger] final(laid_out)@[e] == covered(
                g@,
                Alphas::face(),
                if r.first {
                    faces.push(r.other@)
                } else {
                    faces
                },
                e,
            ),
        forall|e: int|
            0 <= e < g@.ndarts() ==> #[trigger] final(placed)@[e] == covered(
                g@,
                Alphas::vertex(),
                places + dart_seq(r.vertices@),
                e,
            ),
{
    let over: [usize; 2] = [2, 0];
    proof {
        Alphas::lemma_named_cells();
        assert(crate::gmap::ints(over@) =~= seq![2int, 0int]);
        g@.lemma_step(edge@, 2, 0);
    }
    let other_face: Dart = g.al(edge, &over);
    let first: bool = !laid_out[other_face.0];
    let mut new_vertices: Vec<Dart> = Vec::new();
    let ghost n = g@.ndarts();
    proof {
        assert(places + dart_seq(new_vertices@) =~= places);
    }
    if first {
        let ghost old_laid = laid_out@;
        mark(g, laid_out, other_face, 2);
        proof {
            assert forall|e: int| 0 <= e < n implies #[trigger] laid_out@[e] == covered(
                g@,
                Alphas::face(),
                faces.push(other_face@),
                e,
            ) by {
                lemma_cover_push(g@, Alphas::face(), faces, other_face@, e);
                assert(old_laid[e] == covered(g@, Alphas::face(), faces, e));
            }
        }
        let vertices = g.one_dart_per_incident_cell(other_face, 0, 2);
        let ghost l = dart_seq(vertices@);
        let mut v: usize = 0;
        while v < vertices.len()
            invariant
                g.wf(),
                n == g@.ndarts(),
                v <= vertices@.len(),
                placed@.len() == n,
                l == dart_seq(vertices@),
                Alphas::spec_cell(0) == Alphas::vertex(),
                forall|j: int| 0 <= j < vertices@.len() ==> g@.has_dart(#[trigger] vertices@[j]@),
                dart_seq(new_vertices@) == fresh(g@, places, l, v as int),
                forall|e: int|
                    0 <= e < n ==> #[trigger] placed@[e] == covered(
                        g@,
                        Alphas::vertex(),
                        places + dart_seq(new_vertices@),
                        e,
                    ),
            decreases vertices@.len() - v,
        {
            let vertex: Dart = vertices[v];
            proof {
                assert(g@.has_dart(vertices@[v as int]@));
                assert(l[v as int] == vertex@);
            }
            if !placed[vertex.0] {
                let ghost before = placed@;
                let ghost found = dart_seq(new_vertices@);
                mark(g, placed, vertex, 0);
                new_vertices.push(vertex);
                proof {
                    assert(dart_seq(new_vertices@) =~= found.push(vertex@));
                    assert(places + found.push(vertex@) =~= (places + found).push(vertex@));
                    assert forall|e: int| 0 <= e < n implies #[trigger] placed@[e] == covered(
                        g@,
                        Alphas::vertex(),
                        places + dart_seq(new_vertices@),
                        e,
                    ) by {
                        lemma_cover_push(g@, Alphas::vertex(), places + found, vertex@, e);
                        assert(before[e] == covered(g@, Alphas::vertex(), places + found, e));
                    }
                }
            }
            v += 1;
        }
    }
    Crossing { face: my_face, edge, other: other_face, first, vertices: new_vertices }
}

/// Whether one of the vertices of a face lies in a plane: `in_plane` says of
/// every vertex of the face whether it does.
pub fn is_face_in_plane(in_plane: &Vec<bool>) -> (r: bool)
    ensures
        r == exists|k: int| 0 <= k < in_plane@.len() && #[trigger] in_plane@[k],
{
    let mut k: usize = 0;
    while k < in_plane.len()
        invariant
            k <= in_plane@.len(),
            forall|j: int| 0 <= j < k ==> !#[trigger] in_plane@[j],
        decreases in_plane@.len() - k,
    {
        if in_plane[k] {
            return true;
        }
        k += 1;
    }
    false
}

/// The place after `k` on a walk of `n` darts that returns to its first.
pub open spec fn after(n: int, k: int) -> int {
    if k + 1 < n {
        k + 1
    } else {
        0
    }
}

/// The edges of a face that lie in a plane: `walk` holds the darts of the
/// face, one at every vertex, and `in_plane` says of every vertex whether it
/// lies in the plane. An edge lies in the plane when both its ends do.
pub fn edges_in_plane(walk: &Vec<Dart>, in_plane: &Vec<bool>) -> (r: Vec<Dart>)
    requires
        walk@.len() == in_plane@.len(),
    ensures
        forall|x: Dart|
            r@.contains(x) <==> exists|k: int|
                0 <= k < walk@.len() && #[trigger] walk@[k] == x && in_plane@[k] && in_plane@[after(
                    walk@.len() as int,
                    k,
                )],
        r@.len() <= walk@.len(),
{
    let n: usize = walk.len();
    let mut out: Vec<Dart> = Vec::new();
    let mut k: usize = 0;
    while k < n
        invariant
            n == walk@.len(),
            n == in_plane@.len(),
            k <= n,
            out@.len() <= k,
            forall|x: Dart|
                out@.contains(x) <==> exists|j: int|
                    0 <= j < k && #[trigger] walk@[j] == x && in_plane@[j] && in_plane@[after(
                        n as int,
                        j,
                    )],
        decreases n - k,
    {
        let next: usize = if k + 1 < n {
            k + 1
        } else {
            0
        };
        let ghost before = out@;
        if in_plane[k] && in_plane[next] {
            out.push(walk[k]);
        }
        proof {
            assert forall|x: Dart|
                out@.contains(x) <==> exists|j: int|
                    0 <= j < k + 1 && #[trigger] walk@[j] == x && in_plane@[j] && in_plane@[after(
                        n as int,
                        j,
                    )] by {
                if out@.contains(x) {
                    let i = choose|i: int| 0 <= i < out@.len() && out@[i] == x;
                    if i < before.len() {
                        assert(before[i] == x);
                        assert(before.contains(x));
                        let j = choose|j: int|
                            0 <= j < k && #[trigger] walk@[j] == x && in_plane@[j] && in_plane@[after(
                                n as int,
                                j,
                            )];
                        assert(0 <= j < k + 1);
                    } else {
                        assert(walk@[k as int] == x);
                    }
                }
                if exists|j: int|
                    0 <= j < k + 1 && #[trigger] walk@[j] == x && in_plane@[j] && in_plane@[after(
                        n as int,
                        j,
                    )] {
                    let j = choose|j: int|
                        0 <= j < k + 1 && #[trigger] walk@[j] == x && in_plane@[j] && in_plane@[after(
                            n as int,
                            j,
                        )];
                    if j < k {
                        assert(before.contains(x));
                        let i = choose|i: int| 0 <= i < before.len() && before[i] == x;
                        assert(out@[i] == x);
                    } else {
                        assert(out@[out@.len() - 1] == x);
                    }
                }
            }
        }
        k += 1;
    }
    out
}

/// The last place before `k` at which the walk comes up through the plane
/// (`up`) or goes down through it: `below` says of every vertex whether it
/// lies below the plane.
pub open spec fn last_crossing(below: Seq<bool>, up: bool, k: int) -> Option<int>
    decreases k,
{
    if k <= 0 {
        None
    } else {
        let j = k - 1;
        let next = below[after(below.len() as int, j)];
        if below[j] == up && next != up {
            Some(j)
        } else {
            last_crossing(below, up, j)
        }
    }
}

/// The two edges at which a face crosses a plane: the last edge of the walk
/// that comes up through the plane, and the last that goes down through it.
/// `walk` holds the darts of the face, one at every vertex, and `below` says
/// of every vertex whether it lies below the plane.
pub fn face_plane_crossing(walk: &Vec<Dart>, below: &Vec<bool>) -> (r: Option<(Dart, Dart)>)
    requires
        walk@.len() == below@.len(),
    ensures
        match r {
            Some(found) => last_crossing(below@, true, below@.len() as int) matches Some(p)
                && last_crossing(below@, false, below@.len() as int) matches Some(q) && found.0
                == walk@[p] && found.1 == walk@[q],
            None => last_crossing(below@, true, below@.len() as int) is None || last_crossing(
                below@,
                false,
                below@.len() as int,
            ) is None,
        },
{
    let n: usize = walk.len();
    let mut pos: Option<Dart> = None;
    let mut neg: Option<Dart> = None;
    let mut k: usize = 0;
    while k < n
        invariant
            n == walk@.len(),
            n == below@.len(),
            k <= n,
            match pos {
                Some(x) => last_crossing(below@, true, k as int) matches Some(p) && x == walk@[p],
                None => last_crossing(below@, true, k as int) is None,
            },
            match neg {
                Some(x) => last_crossing(below@, false, k as int) matches Some(q) && x == walk@[q],
                None => last_crossing(below@, false, k as int) is None,
            },
            forall|j: int|
                0 <= j <= k ==> (#[trigger] last_crossing(below@, true, j) matches Some(p) ==> 0 <= p
                    < j),
            forall|j: int|
                0 <= j <= k ==> (#[trigger] last_crossing(below@, false, j) matches Some(q) ==> 0
                    <= q < j),
        decreases n - k,
    {
        let next: usize = if k + 1 < n {
            k + 1
        } else {
            0
        };
        if below[k] && !below[next] {
            pos = Some(walk[k]);
        }
        if !below[k] && below[next] {
            neg = Some(walk[k]);
        }
        k += 1;
    }
    match pos {
        Some(p) => match neg {
            Some(q) => Some((p, q)),
            None => None,
        },
        None => None,
    }
}

/// Whether two faces share a crease: whether `alpha_2` takes a dart of the
/// face of `face2` to a dart of the face of `face1`.
pub fn faces_share_crease(g: &GMap, face1: Dart, face2: Dart) -> (r: bool)
    requires
        g.wf(),
        g@.dimension >= 2,
        g@.has_dart(face1@),
        g@.has_dart(face2@),
    ensures
        r == exists|d: int|
            #[trigger] g@.reaches(Alphas::face(), face2@, d) && g@.reaches(
                Alphas::face(),
                face1@,
                g@.al(d, 2),
            ),
{
    let n: usize = g.ndarts();
    let mut of_first: Vec<bool> = crate::orbit::all_false(n);
    proof {
        Alphas::lemma_named_cells();
    }
    mark(g, &mut of_first, face1, 2);
    let second = g.cell(face2, 2);
    let ghost xs = dart_seq(second@);
    let mut k: usize = 0;
    while k < second.len()
        invariant
            g.wf(),
            g@.dimension >= 2,
            n == g@.ndarts(),
            k <= second@.len(),
            xs == dart_seq(second@),
            of_first@.len() == n,
            Alphas::spec_cell(2) == Alphas::face(),
            forall|e: int|
                0 <= e < n ==> #[trigger] of_first@[e] == g@.reaches(Alphas::face(), face1@, e),
            forall|j: int| 0 <= j < second@.len() ==> g@.has_dart(#[trigger] second@[j]@),
            forall|e: int| g@.reaches(Alphas::face(), face2@, e) <==> listed(xs, e),
            forall|j: int| 0 <= j < k ==> !g@.reaches(Alphas::face(), face1@, g@.al(#[trigger] xs[j], 2)),
        decreases second@.len() - k,
    {
        let d: Dart = second[k];
        proof {
            assert(g@.has_dart(second@[k as int]@));
            assert(xs[k as int] == d@);
        }
        let across: Dart = g.al1(d, 2);
        if of_first[across.0] {
            proof {
                assert(listed(xs, d@));
            }
            return true;
        }
        k += 1;
    }
    proof {
        assert forall|d: int| #[trigger] g@.reaches(Alphas::face(), face2@, d) implies !g@.reaches(
            Alphas::face(),
            face1@,
            g@.al(d, 2),
        ) by {
            assert(listed(xs, d));
            let j = choose|j: int| 0 <= j < xs.len() && #[trigger] xs[j] == d;
            assert(!g@.reaches(Alphas::face(), face1@, g@.al(xs[j], 2)));
        }
    }
    false
}

} // verus!
