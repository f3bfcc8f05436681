//! The clauses of a folding problem, drawn as a map of dimension 2: every
//! clause is a face, every variable an edge between a blue clause and a red
//! one.

use crate::dart::Dart;
use crate::gmap::GMap;
use crate::circular::{distinct, lemma_distinct, lemma_distinct_parts, lemma_listed_concat};
use crate::listing::listed;
use crate::model::{chain_image, GMapView};
use crate::shrink::{
    clause_ok, joined, plan_ok, slot_ints, spares, views, ClauseView, RedClause,
};
use std::collections::HashMap;
use vstd::prelude::*;

verus! {

broadcast use vstd::std_specs::hash::group_hash_axioms;

/// The kind of a clause: red for a face, blue for a vertex.
#[derive(Debug, PartialEq, Eq, Clone, Copy, Structural)]
pub enum Color {
    Red,
    Blue,
}

/// The clauses of a problem. Every clause is a ring of darts of `cg`, joined
/// in turn by `alpha_1` and `alpha_2`; two darts joined by `alpha_2` are one
/// side of a variable, and `alpha_0` joins the two sides.
pub struct Constraints {
    cg: GMap,
    clause_sizes: HashMap<usize, usize>,
    clause_colors: HashMap<usize, Color>,
    angle_to_cg: HashMap<usize, Dart>,
    home: Ghost<Seq<int>>,
    width: Ghost<Seq<int>>,
}

/// What a set of clauses holds.
pub struct ConstraintsView {
    /// The map of the clauses.
    pub cg: GMapView,
    /// For the first dart of every clause, how many of its variables must be
    /// mountains.
    pub sizes: Map<usize, usize>,
    /// For the first dart of every clause, its colour.
    pub colors: Map<usize, Color>,
    /// For the angles of the crease pattern that are not flat, the dart of
    /// the blue clause of their vertex that stands for them.
    pub angle_to_cg: Map<usize, Dart>,
    /// For every dart, the first dart of its clause.
    pub home: Seq<int>,
    /// For every dart, the number of variables of its clause.
    pub width: Seq<int>,
}

impl View for Constraints {
    type V = ConstraintsView;

    closed spec fn view(&self) -> ConstraintsView {
        ConstraintsView {
            cg: self.cg@,
            sizes: self.clause_sizes@,
            colors: self.clause_colors@,
            angle_to_cg: self.angle_to_cg@,
            home: self.home@,
            width: self.width@,
        }
    }
}

impl ConstraintsView {
    /// No clauses.
    pub open spec fn none() -> ConstraintsView {
        ConstraintsView {
            cg: GMapView::empty(2),
            sizes: Map::empty(),
            colors: Map::empty(),
            angle_to_cg: Map::empty(),
            home: Seq::empty(),
            width: Seq::empty(),
        }
    }

    /// The colour of the clause of a dart.
    pub open spec fn color_of(self, d: int) -> Color {
        self.colors[self.home[d] as usize]
    }

    /// The place of a dart on the ring of its clause.
    pub open spec fn offset(self, d: int) -> int {
        d - self.home[d]
    }

    /// The dart `d` lies on the ring of its clause: the ring is the `2 a`
    /// darts from the first dart `h` of the clause on, `a` being the number
    /// of its variables; `alpha_1` joins the darts `h + 2 k` and
    /// `h + 2 k + 1`, `alpha_2` joins `h + 2 k + 1` and `h + 2 k + 2`, and
    /// the last dart with the first. The clause has a colour, and asks for no
    /// more mountains than it has variables. Where `alpha_0` joins `d` to
    /// another dart, the clause of that dart has the other colour.
    pub open spec fn block_ok(self, d: int) -> bool {
        let h = self.home[d];
        let a = self.width[d];
        let t = d - h;
        &&& 0 <= h
        &&& a >= 1
        &&& 0 <= t < 2 * a
        &&& h + 2 * a <= self.cg.ndarts()
        &&& h <= usize::MAX
        &&& self.cg.al(d, 1) == chain_image(h, a, 1, 2, true, t, 1)
        &&& self.cg.al(d, 2) == chain_image(h, a, 1, 2, true, t, 2)
        &&& self.home[self.cg.al(d, 1)] == h
        &&& self.home[self.cg.al(d, 2)] == h
        &&& self.width[self.cg.al(d, 1)] == a
        &&& self.width[self.cg.al(d, 2)] == a
        &&& self.home[h] == h
        &&& self.width[h] == a
        &&& self.colors.contains_key(h as usize)
        &&& self.sizes.contains_key(h as usize)
        &&& self.sizes[h as usize] <= a
        &&& (self.cg.al(d, 0) != d ==> self.color_of(self.cg.al(d, 0)) != self.color_of(d))
    }

    /// The map of the clauses is a map of dimension 2 without deleted darts,
    /// and every dart lies on the ring of its clause.
    pub open spec fn wf(self) -> bool {
        &&& self.cg.valid()
        &&& self.cg.dimension == 2
        &&& self.home.len() == self.cg.ndarts()
        &&& self.width.len() == self.cg.ndarts()
        &&& forall|d: int| self.cg.has_dart(d) ==> !#[trigger] self.cg.deleted[d]
        &&& forall|d: int| self.cg.has_dart(d) ==> #[trigger] self.block_ok(d)
        &&& forall|k: usize| #[trigger] self.sizes.contains_key(k) ==> self.is_clause(k as int)
    }

    /// The dart `h` is the first dart of a clause.
    pub open spec fn is_clause(self, h: int) -> bool {
        self.cg.has_dart(h) && self.home[h] == h
    }

    /// Neither side of the variable of `e` is joined to another clause yet.
    pub open spec fn unglued(self, e: int) -> bool {
        self.cg.is_free(e, 0) && self.cg.is_free(self.cg.al(e, 2), 0)
    }

    /// The clauses with one more: a ring of `n` variables.
    pub open spec fn with_clause(self, n: int, color: Color, size: usize) -> ConstraintsView {
        let s = self.cg.ndarts();
        ConstraintsView {
            cg: self.cg.with_cycle(1, 2, n),
            sizes: self.sizes.insert(s as usize, size),
            colors: self.colors.insert(s as usize, color),
            angle_to_cg: self.angle_to_cg,
            home: self.home + Seq::new((2 * n) as nat, |t: int| s),
            width: self.width + Seq::new((2 * n) as nat, |t: int| n),
        }
    }

    /// The clauses with the variable of `e` and the variable of `y` made
    /// one: `alpha_0` joins `y` to the other side of `e`, and `e` to the
    /// other side of `y`.
    pub open spec fn glued(self, e: int, y: int) -> ConstraintsView {
        ConstraintsView {
            cg: self.cg.linked(0, self.cg.al(e, 2), y).linked(0, e, self.cg.al(y, 2)),
            ..self
        }
    }

    /// A new clause leaves the old ones as they are, and its darts are free
    /// in dimension 0.
    pub proof fn lemma_with_clause(self, n: int, color: Color, size: usize)
        requires
            self.wf(),
            n >= 1,
            size <= n,
            self.cg.ndarts() <= usize::MAX,
        ensures
            self.with_clause(n, color, size).wf(),
            self.with_clause(n, color, size).cg.ndarts() == self.cg.ndarts() + 2 * n,
            forall|d: int, k: int|
                self.cg.has_dart(d) && 0 <= k <= 2 ==> #[trigger] self.with_clause(
                    n,
                    color,
                    size,
                ).cg.al(d, k) == self.cg.al(d, k),
            forall|d: int|
                self.cg.has_dart(d) ==> #[trigger] self.with_clause(n, color, size).home[d]
                    == self.home[d] && self.with_clause(n, color, size).width[d] == self.width[d]
                    && self.with_clause(n, color, size).color_of(d) == self.color_of(d),
            forall|d: int|
                self.cg.ndarts() <= d < self.cg.ndarts() + 2 * n ==> #[trigger] self.with_clause(
                    n,
                    color,
                    size,
                ).home[d] == self.cg.ndarts() && self.with_clause(n, color, size).width[d] == n
                    && self.with_clause(n, color, size).cg.is_free(d, 0) && self.with_clause(
                    n,
                    color,
                    size,
                ).color_of(d) == color,
            forall|d: int, k: int|
                self.cg.ndarts() <= d < self.cg.ndarts() + 2 * n && 1 <= k <= 2
                    ==> #[trigger] self.with_clause(n, color, size).cg.al(d, k) == chain_image(
                    self.cg.ndarts(),
                    n,
                    1,
                    2,
                    true,
                    d - self.cg.ndarts(),
                    k,
                ),
    {
        let c = self.with_clause(n, color, size);
        let s = self.cg.ndarts();
        self.cg.lemma_with_chain_valid(1, 2, n, true);
        assert forall|d: int| self.cg.has_dart(d) implies #[trigger] c.home[d] == self.home[d]
            && c.width[d] == self.width[d] && c.color_of(d) == self.color_of(d) by {
            assert(self.block_ok(d));
        }
        assert forall|d: int| s <= d < s + 2 * n implies #[trigger] c.home[d] == s && c.width[d] == n
            && c.cg.is_free(d, 0) && c.color_of(d) == color by {
            let t = d - s;
            assert(c.cg.al(s + t, 0) == chain_image(s, n, 1, 2, true, t, 0));
        }
        assert forall|d: int, k: int| s <= d < s + 2 * n && 1 <= k <= 2 implies #[trigger] c.cg.al(
            d,
            k,
        ) == chain_image(s, n, 1, 2, true, d - s, k) by {
            let t = d - s;
            assert(c.cg.al(s + t, k) == chain_image(s, n, 1, 2, true, t, k));
        }
        assert forall|d: int| c.cg.has_dart(d) implies #[trigger] c.block_ok(d) by {
            if d < s {
                assert(self.block_ok(d));
                assert(self.cg.has_dart(self.cg.al(d, 0)));
                assert(self.cg.has_dart(self.cg.al(d, 1)));
                assert(self.cg.has_dart(self.cg.al(d, 2)));
                assert(c.cg.al(d, 0) == self.cg.al(d, 0));
                assert(c.cg.al(d, 1) == self.cg.al(d, 1));
                assert(c.cg.al(d, 2) == self.cg.al(d, 2));
                let e = self.cg.al(d, 0);
                assert(self.block_ok(e));
            } else {
                let t = d - s;
                assert(c.home[d] == s);
                assert(c.cg.al(s + t, 0) == chain_image(s, n, 1, 2, true, t, 0));
                assert(c.cg.al(s + t, 1) == chain_image(s, n, 1, 2, true, t, 1));
                assert(c.cg.al(s + t, 2) == chain_image(s, n, 1, 2, true, t, 2));
                assert(c.home[c.cg.al(d, 1)] == s);
                assert(c.home[c.cg.al(d, 2)] == s);
                assert(c.home[s] == s);
            }
        }
        assert forall|d: int| c.cg.has_dart(d) implies !#[trigger] c.cg.deleted[d] by {
            if d < s {
                assert(!self.cg.deleted[d]);
            }
        }
    }

    /// Two variables made one leave every clause as it is, and join four
    /// darts in dimension 0.
    pub proof fn lemma_glued(self, e: int, y: int)
        requires
            self.wf(),
            self.cg.has_dart(e),
            self.cg.has_dart(y),
            self.unglued(e),
            self.unglued(y),
            self.home[e] != self.home[y],
            self.color_of(e) != self.color_of(y),
        ensures
            self.glued(e, y).cg.sound(),
            self.glued(e, y).cg.ndarts() == self.cg.ndarts(),
            self.glued(e, y).cg.dimension == 2,
            self.glued(e, y).cg.deleted == self.cg.deleted,
            forall|d: int| self.cg.has_dart(d) ==> #[trigger] self.glued(e, y).block_ok(d),
            forall|d: int, k: int|
                self.cg.has_dart(d) && 1 <= k <= 2 ==> #[trigger] self.glued(e, y).cg.al(d, k)
                    == self.cg.al(d, k),
            forall|d: int|
                self.cg.has_dart(d) && d != e && d != y && d != self.cg.al(e, 2) && d != self.cg.al(
                    y,
                    2,
                ) ==> #[trigger] self.glued(e, y).cg.al(d, 0) == self.cg.al(d, 0),
            self.glued(e, y).cg.al(e, 0) == self.cg.al(y, 2),
            self.glued(e, y).cg.al(self.cg.al(y, 2), 0) == e,
            self.glued(e, y).cg.al(y, 0) == self.cg.al(e, 2),
            self.glued(e, y).cg.al(self.cg.al(e, 2), 0) == y,
            self.cg.al(e, 2) != e,
            self.cg.al(y, 2) != y,
            self.cg.al(e, 2) != y,
            self.cg.al(y, 2) != e,
            self.cg.al(e, 2) != self.cg.al(y, 2),
            e != y,
    {
        let c = self.glued(e, y);
        let g = self.cg;
        let x = g.al(e, 2);
        let z = g.al(y, 2);
        assert(self.block_ok(e));
        assert(self.block_ok(y));
        assert(g.has_dart(x) && g.has_dart(z));
        assert(self.block_ok(x));
        assert(self.block_ok(z));
        let g1 = g.linked(0, x, y);
        g.lemma_linked_sound(0, x, y);
        g1.lemma_linked_sound(0, e, z);
        assert forall|d: int| g.has_dart(d) implies #[trigger] c.block_ok(d) by {
            assert(self.block_ok(d));
            assert(g.has_dart(g.al(d, 0)));
            assert(self.block_ok(g.al(d, 0)));
            assert(c.cg.al(d, 1) == g.al(d, 1));
            assert(c.cg.al(d, 2) == g.al(d, 2));
        }
    }
}

impl Constraints {
    /// What is kept is well formed.
    pub closed spec fn wf(&self) -> bool {
        self.cg.wf() && self@.wf()
    }

    /// What a well-formed set of clauses holds.
    pub proof fn lemma_wf(&self)
        requires
            self.wf(),
        ensures
            self@.wf(),
    {
    }

    /// No clauses.
    pub fn new() -> (r: Result<Constraints, crate::dart::GMapError>)
        ensures
            r matches Ok(c) && c.wf() && c@ == ConstraintsView::none(),
    {
        match GMap::empty(2) {
            Ok(cg) => {
                let c = Constraints {
                    cg,
                    clause_sizes: HashMap::new(),
                    clause_colors: HashMap::new(),
                    angle_to_cg: HashMap::new(),
                    home: Ghost(Seq::empty()),
                    width: Ghost(Seq::empty()),
                };
                proof {
                    assert(c@.sizes =~= Map::<usize, usize>::empty());
                    assert(c@.colors =~= Map::<usize, Color>::empty());
                    assert(c@.angle_to_cg =~= Map::<usize, Dart>::empty());
                    assert(c@ == ConstraintsView::none());
                }
                Ok(c)
            },
            Err(e) => Err(e),
        }
    }

    /// The map of the clauses.
    pub fn cg(&self) -> (r: &GMap)
        ensures
            r@ == self@.cg,
            self.wf() ==> r.wf(),
    {
        &self.cg
    }

    /// For the first dart of every clause, how many of its variables must be
    /// mountains.
    pub fn clause_sizes(&self) -> (r: &HashMap<usize, usize>)
        ensures
            r@ == self@.sizes,
    {
        &self.clause_sizes
    }

    /// For the first dart of every clause, its colour.
    pub fn clause_colors(&self) -> (r: &HashMap<usize, Color>)
        ensures
            r@ == self@.colors,
    {
        &self.clause_colors
    }

    /// For the angles of the crease pattern that are not flat, the dart of
    /// the blue clause of their vertex that stands for them.
    pub fn angle_to_cg(&self) -> (r: &HashMap<usize, Dart>)
        ensures
            r@ == self@.angle_to_cg,
    {
        &self.angle_to_cg
    }

    /// Adds a clause of `n` variables, of which `size` must be mountains.
    /// Returns its first dart.
    pub fn add_clause(&mut self, n: usize, color: Color, size: usize) -> (r: Dart)
        requires
            old(self).wf(),
            n >= 1,
            size <= n,
        ensures
            final(self).wf(),
            r@ == old(self)@.cg.ndarts(),
            final(self)@ == old(self)@.with_clause(n as int, color, size),
    {
        let ghost c0 = self@;
        let start = add_vertex(&mut self.cg, n);
        self.clause_sizes.insert(start.0, size);
        self.clause_colors.insert(start.0, color);
        proof {
            let s = c0.cg.ndarts();
            self.home = Ghost(c0.home + Seq::new((2 * n) as nat, |t: int| s));
            self.width = Ghost(c0.width + Seq::new((2 * n) as nat, |t: int| n as int));
            assert(s == start.0);
            c0.lemma_with_clause(n as int, color, size);
            assert(self@ == c0.with_clause(n as int, color, size));
        }
        start
    }

    /// Lets the dart `d` stand for the angle `a`.
    pub fn set_angle(&mut self, a: Dart, d: Dart)
        requires
            old(self).wf(),
        ensures
            final(self).wf(),
            final(self)@ == (ConstraintsView {
                angle_to_cg: old(self)@.angle_to_cg.insert(a.0, d),
                ..old(self)@
            }),
    {
        let ghost c0 = self@;
        self.angle_to_cg.insert(a.0, d);
        proof {
            assert forall|x: int| self@.cg.has_dart(x) implies #[trigger] self@.block_ok(x) by {
                assert(c0.block_ok(x));
            }
        }
    }

    /// Makes the variable of `e` and the variable of `y` one.
    pub fn glue(&mut self, e: Dart, y: Dart)
        requires
            old(self).wf(),
            old(self)@.cg.has_dart(e@),
            old(self)@.cg.has_dart(y@),
            old(self)@.unglued(e@),
            old(self)@.unglued(y@),
            old(self)@.home[e@] != old(self)@.home[y@],
            old(self)@.color_of(e@) != old(self)@.color_of(y@),
        ensures
            final(self).wf(),
            final(self)@ == old(self)@.glued(e@, y@),
    {
        let ghost c0 = self@;
        proof {
            c0.lemma_glued(e@, y@);
            assert(c0.block_ok(e@));
            assert(c0.block_ok(y@));
        }
        let x = self.cg.al1(e, 2);
        proof {
            assert(!c0.cg.deleted[x@]);
            assert(!c0.cg.deleted[y@]);
            assert(!c0.cg.deleted[e@]);
        }
        self.cg.sew_pair(0, x, y);
        proof {
            assert forall|d: int| self@.cg.has_dart(d) implies !#[trigger] self@.cg.deleted[d] by {
                assert(!c0.cg.deleted[d]);
            }
        }
    }
}

/// Adds a ring of `n` variables to a map of clauses. Returns its first dart.
pub fn add_vertex(g: &mut GMap, n: usize) -> (r: Dart)
    requires
        old(g).wf(),
        old(g)@.dimension == 2,
        n >= 1,
    ensures
        final(g).wf(),
        r@ == old(g)@.ndarts(),
        final(g)@ == old(g)@.with_cycle(1, 2, n as int),
{
    g.add_cycle(1, 2, n)
}

/// The `i`-th dart of the ring of `a` variables that starts at `h`, counted
/// counter-clockwise: by `alpha_2` and then `alpha_1`, `i` times.
pub open spec fn place(h: int, a: int, i: int) -> int {
    if i == 0 {
        h
    } else {
        h + 2 * a - 2 * i
    }
}

impl ConstraintsView {
    /// A dart that stands for an angle, or for what is left of a valley: a
    /// dart at an even place of a blue clause.
    pub open spec fn angle_dart(self, e: int) -> bool {
        self.cg.has_dart(e) && self.offset(e) % 2 == 0 && self.color_of(e) == Color::Blue
    }

    /// The clause that starts at `h` is joined to no other yet.
    pub open spec fn fresh(self, h: int) -> bool {
        &&& self.cg.has_dart(h)
        &&& self.home[h] == h
        &&& forall|d: int|
            h <= d < h + 2 * self.width[h] ==> #[trigger] self.cg.is_free(d, 0) && self.home[d] == h
    }

    /// The dart `d` is one of the first `m` of `edges`, the other side of
    /// one, or a dart of the clause of `h` that was joined to one.
    pub open spec fn touched(self, edges: Seq<Dart>, h: int, m: int, d: int) -> bool {
        ||| exists|i: int| 0 <= i < m && #[trigger] self.side_of(edges[i]@, d)
        ||| (self.home[d] == h && m >= 1 && (self.offset(d) == 0 || self.offset(d) >= 2
            * self.width[h] - 2 * m + 1))
    }

    /// The dart `d` is `e` or the other side of its variable.
    pub open spec fn side_of(self, e: int, d: int) -> bool {
        d == e || d == self.cg.al(e, 2)
    }

    /// Nothing differs from `c0` but what `alpha_0` joins.
    pub open spec fn same_but_links(self, c0: ConstraintsView) -> bool {
        &&& self.sizes == c0.sizes
        &&& self.colors == c0.colors
        &&& self.angle_to_cg == c0.angle_to_cg
        &&& self.home == c0.home
        &&& self.width == c0.width
        &&& self.cg.ndarts() == c0.cg.ndarts()
        &&& forall|d: int, k: int|
            c0.cg.has_dart(d) && 1 <= k <= 2 ==> #[trigger] self.cg.al(d, k) == c0.cg.al(d, k)
    }

    /// The two sides of a variable lie on one clause, at places of which one
    /// is even and one is odd.
    pub proof fn lemma_other_side(self, e: int)
        requires
            self.wf(),
            self.cg.has_dart(e),
        ensures
            self.cg.has_dart(self.cg.al(e, 2)),
            self.home[self.cg.al(e, 2)] == self.home[e],
            self.width[self.cg.al(e, 2)] == self.width[e],
            self.offset(self.cg.al(e, 2)) % 2 != self.offset(e) % 2,
            self.cg.al(self.cg.al(e, 2), 2) == e,
            self.cg.al(e, 2) != e,
            0 <= self.offset(e) < 2 * self.width[e],
            self.color_of(self.cg.al(e, 2)) == self.color_of(e),
    {
        assert(self.block_ok(e));
        assert(self.cg.has_dart(self.cg.al(e, 2)));
    }

}

impl ConstraintsView {
    /// The clauses with the first `m` darts of `edges` joined, in turn, to
    /// the variables of the clause that starts at `h`, counter-clockwise from
    /// its first one.
    pub open spec fn glued_all(self, edges: Seq<Dart>, h: int, m: int) -> ConstraintsView
        decreases m,
    {
        if m <= 0 {
            self
        } else {
            let before = self.glued_all(edges, h, m - 1);
            before.glued(edges[m - 1]@, place(h, before.width[h], m - 1))
        }
    }
}

/// Joins the darts of `edges`, in turn, to the variables of the clause that
/// starts at `clause`, counter-clockwise from its first one.
pub fn glue_clause(cons: &mut Constraints, edges: &Vec<Dart>, clause: Dart)
    requires
        old(cons).wf(),
        old(cons)@.fresh(clause@),
        edges@.len() <= old(cons)@.width[clause@],
        forall|i: int|
            0 <= i < edges@.len() ==> {
                &&& old(cons)@.cg.has_dart(#[trigger] edges@[i]@)
                &&& old(cons)@.unglued(edges@[i]@)
                &&& old(cons)@.offset(edges@[i]@) % 2 == 0
                &&& old(cons)@.home[edges@[i]@] != clause@
                &&& old(cons)@.color_of(edges@[i]@) != old(cons)@.color_of(clause@)
            },
        forall|i: int, j: int| 0 <= i < j < edges@.len() ==> edges@[i]@ != edges@[j]@,
    ensures
        final(cons).wf(),
        final(cons)@ == old(cons)@.glued_all(edges@, clause@, edges@.len() as int),
        final(cons)@.same_but_links(old(cons)@),
        forall|d: int|
            old(cons)@.cg.has_dart(d) ==> #[trigger] final(cons)@.cg.is_free(d, 0) == (old(
                cons,
            )@.cg.is_free(d, 0) && !old(cons)@.touched(edges@, clause@, edges@.len() as int, d)),
{
    let ghost c0 = cons@;
    let ghost h = clause@;
    let ghost a = c0.width[h];
    let walk: [usize; 2] = [2, 1];
    let mut clause_edge: Dart = clause;
    let mut i: usize = 0;
    proof {
        cons.lemma_wf();
        assert(c0.block_ok(h));
        assert(crate::gmap::ints(walk@) =~= seq![2int, 1int]);
    }
    while i < edges.len()
        invariant
            cons.wf(),
            c0.wf(),
            c0.fresh(h),
            a == c0.width[h],
            a >= 1,
            i <= edges@.len() <= a,
            crate::gmap::ints(walk@) == seq![2int, 1int],
            cons@.same_but_links(c0),
            cons@ == c0.glued_all(edges@, h, i as int),
            clause_edge@ == place(h, a, i as int),
            forall|k: int|
                0 <= k < edges@.len() ==> {
                    &&& c0.cg.has_dart(#[trigger] edges@[k]@)
                    &&& c0.unglued(edges@[k]@)
                    &&& c0.offset(edges@[k]@) % 2 == 0
                    &&& c0.home[edges@[k]@] != h
                    &&& c0.color_of(edges@[k]@) != c0.color_of(h)
                },
            forall|k: int, j: int| 0 <= k < j < edges@.len() ==> edges@[k]@ != edges@[j]@,
            forall|d: int|
                c0.cg.has_dart(d) ==> #[trigger] cons@.cg.is_free(d, 0) == (c0.cg.is_free(d, 0)
                    && !c0.touched(edges@, h, i as int, d)),
        decreases edges@.len() - i,
    {
        let e: Dart = edges[i];
        let ghost c1 = cons@;
        let ghost y = clause_edge@;
        proof {
            cons.lemma_wf();
            lemma_glue_ready(c0, c1, edges@, h, i as int);
        }
        cons.glue(e, clause_edge);
        proof {
            cons.lemma_wf();
            c1.lemma_glued(e@, y);
            lemma_glue_done(c0, c1, cons@, edges@, h, i as int);
            assert(cons@.block_ok(y));
            cons@.cg.lemma_step(y, 2, 1);
            assert(cons@.cg.walk(y, seq![2int, 1int]) == cons@.cg.al(cons@.cg.al(y, 2), 1));
            assert(cons@.cg.has_dart(cons@.cg.al(y, 2)));
            assert(cons@.block_ok(cons@.cg.al(y, 2)));
        }
        clause_edge = cons.cg.al(clause_edge, &walk);
        i += 1;
    }
}

/// Before the `i`-th dart of `edges` is joined to the clause of `h`: neither
/// it nor the `i`-th dart of the clause is joined to anything.
proof fn lemma_glue_ready(
    c0: ConstraintsView,
    c1: ConstraintsView,
    edges: Seq<Dart>,
    h: int,
    i: int,
)
    requires
        c0.wf(),
        c1.wf(),
        c0.fresh(h),
        0 <= i < edges.len() <= c0.width[h],
        c1.same_but_links(c0),
        forall|k: int|
            0 <= k < edges.len() ==> {
                &&& c0.cg.has_dart(#[trigger] edges[k]@)
                &&& c0.unglued(edges[k]@)
                &&& c0.offset(edges[k]@) % 2 == 0
                &&& c0.home[edges[k]@] != h
                &&& c0.color_of(edges[k]@) != c0.color_of(h)
            },
        forall|k: int, j: int| 0 <= k < j < edges.len() ==> edges[k]@ != edges[j]@,
        forall|d: int|
            c0.cg.has_dart(d) ==> #[trigger] c1.cg.is_free(d, 0) == (c0.cg.is_free(d, 0)
                && !c0.touched(edges, h, i, d)),
    ensures
        c1.cg.has_dart(edges[i]@),
        c1.cg.has_dart(place(h, c0.width[h], i)),
        c1.unglued(edges[i]@),
        c1.unglued(place(h, c0.width[h], i)),
        c1.home[edges[i]@] != c1.home[place(h, c0.width[h], i)],
        c1.color_of(edges[i]@) != c1.color_of(place(h, c0.width[h], i)),
        c1.home[place(h, c0.width[h], i)] == h,
{
    let a = c0.width[h];
    let e = edges[i]@;
    let y = place(h, a, i);
    let x = c0.cg.al(e, 2);
    assert(c0.block_ok(h));
    c0.lemma_other_side(e);
    assert(a >= 1);
    assert(h <= y < h + 2 * a);
    assert(c0.fresh(h));
    assert(forall|d: int| h <= d < h + 2 * c0.width[h] ==> #[trigger] c0.cg.is_free(d, 0));
    assert(c0.cg.is_free(y, 0));
    assert(c0.home[y] == h);
    assert(c0.block_ok(y));
    c0.lemma_other_side(y);
    let z = c0.cg.al(y, 2);
    assert(c0.cg.is_free(z, 0));
    assert(c1.cg.al(e, 2) == x);
    assert(c1.cg.al(y, 2) == z);
    // no dart joined so far is one of these four
    assert forall|k: int| 0 <= k < i implies !(#[trigger] c0.side_of(edges[k]@, e)) && !c0.side_of(
        edges[k]@,
        x,
    ) && !c0.side_of(edges[k]@, y) && !c0.side_of(edges[k]@, z) by {
        c0.lemma_other_side(edges[k]@);
        assert(edges[k]@ != edges[i]@);
    }
    assert(!c0.touched(edges, h, i, e));
    assert(!c0.touched(edges, h, i, x));
    assert(!c0.touched(edges, h, i, y));
    assert(!c0.touched(edges, h, i, z));
}

/// After the `i`-th dart of `edges` is joined to the clause of `h`: what is
/// joined is what was joined before, and the four darts of the two variables.
proof fn lemma_glue_done(
    c0: ConstraintsView,
    c1: ConstraintsView,
    c2: ConstraintsView,
    edges: Seq<Dart>,
    h: int,
    i: int,
)
    requires
        c0.wf(),
        c1.wf(),
        c0.fresh(h),
        0 <= i < edges.len() <= c0.width[h],
        c1.same_but_links(c0),
        c2 == c1.glued(edges[i]@, place(h, c0.width[h], i)),
        forall|k: int|
            0 <= k < edges.len() ==> {
                &&& c0.cg.has_dart(#[trigger] edges[k]@)
                &&& c0.unglued(edges[k]@)
                &&& c0.offset(edges[k]@) % 2 == 0
                &&& c0.home[edges[k]@] != h
                &&& c0.color_of(edges[k]@) != c0.color_of(h)
            },
        forall|k: int, j: int| 0 <= k < j < edges.len() ==> edges[k]@ != edges[j]@,
        forall|d: int|
            c0.cg.has_dart(d) ==> #[trigger] c1.cg.is_free(d, 0) == (c0.cg.is_free(d, 0)
                && !c0.touched(edges, h, i, d)),
    ensures
        c2.same_but_links(c0),
        forall|d: int|
            c0.cg.has_dart(d) ==> #[trigger] c2.cg.is_free(d, 0) == (c0.cg.is_free(d, 0)
                && !c0.touched(edges, h, i + 1, d)),
        c2.cg.al(c2.cg.al(place(h, c0.width[h], i), 2), 1) == place(h, c0.width[h], i + 1),
{
    let a = c0.width[h];
    let e = edges[i]@;
    let y = place(h, a, i);
    lemma_glue_ready(c0, c1, edges, h, i);
    c1.lemma_glued(e, y);
    c0.lemma_other_side(e);
    c0.lemma_other_side(y);
    let x = c0.cg.al(e, 2);
    let z = c0.cg.al(y, 2);
    assert(c1.cg.al(e, 2) == x);
    assert(c1.cg.al(y, 2) == z);
    assert(c0.block_ok(y));
    assert(c0.block_ok(z));
    assert(c0.block_ok(h));
    assert(c2.same_but_links(c0)) by {
        assert forall|d: int, k: int| c0.cg.has_dart(d) && 1 <= k <= 2 implies #[trigger] c2.cg.al(
            d,
            k,
        ) == c0.cg.al(d, k) by {
            assert(c1.cg.al(d, k) == c0.cg.al(d, k));
        }
    }
    assert forall|d: int| c0.cg.has_dart(d) implies #[trigger] c2.cg.is_free(d, 0) == (c0.cg.is_free(
        d,
        0,
    ) && !c0.touched(edges, h, i + 1, d)) by {
        let four = d == e || d == x || d == y || d == z;
        assert(c0.side_of(edges[i]@, e) && c0.side_of(edges[i]@, x));
        assert(c1.cg.is_free(d, 0) == (c0.cg.is_free(d, 0) && !c0.touched(edges, h, i, d)));
        if c0.touched(edges, h, i, d) {
            if exists|k: int| 0 <= k < i && #[trigger] c0.side_of(edges[k]@, d) {
                let k = choose|k: int| 0 <= k < i && #[trigger] c0.side_of(edges[k]@, d);
                assert(0 <= k < i + 1 && c0.side_of(edges[k]@, d));
            }
            assert(c0.touched(edges, h, i + 1, d));
        }
        if c0.touched(edges, h, i + 1, d) && !c0.touched(edges, h, i, d) {
            if exists|k: int| 0 <= k < i + 1 && #[trigger] c0.side_of(edges[k]@, d) {
                let k = choose|k: int| 0 <= k < i + 1 && #[trigger] c0.side_of(edges[k]@, d);
                if k < i {
                    assert(false);
                }
                assert(four);
            } else {
                assert(c0.home[d] == h);
                assert(c0.block_ok(d));
                assert(d == y || d == z);
            }
        }
        if four {
            if d == e || d == x {
                assert(c0.side_of(edges[i]@, d));
            } else {
                assert(c0.home[d] == h);
            }
            assert(c0.touched(edges, h, i + 1, d));
            assert(!c2.cg.is_free(d, 0));
        } else {
            assert(c2.cg.al(d, 0) == c1.cg.al(d, 0));
            assert(c2.cg.is_free(d, 0) == c1.cg.is_free(d, 0));
        }
    }
}

impl ConstraintsView {
    /// Every clause of `c0` is still there, and what was joined in `c0` is
    /// still joined.
    pub open spec fn extends(self, c0: ConstraintsView) -> bool {
        &&& c0.cg.ndarts() <= self.cg.ndarts()
        &&& self.angle_to_cg == c0.angle_to_cg
        &&& forall|d: int|
            c0.cg.has_dart(d) ==> #[trigger] self.home[d] == c0.home[d] && self.width[d]
                == c0.width[d] && self.color_of(d) == c0.color_of(d) && self.cg.al(d, 1)
                == c0.cg.al(d, 1) && self.cg.al(d, 2) == c0.cg.al(d, 2) && (self.cg.is_free(d, 0)
                ==> c0.cg.is_free(d, 0))
    }

    /// The variable of `e` is joined to another on both sides.
    pub open spec fn joined_up(self, e: int) -> bool {
        !self.cg.is_free(e, 0) && !self.cg.is_free(self.cg.al(e, 2), 0)
    }

    /// A dart that stands for an angle, and whose variable is not joined to
    /// another yet.
    pub open spec fn waiting(self, e: int) -> bool {
        self.angle_dart(e) && self.unglued(e)
    }

    pub proof fn lemma_extends_trans(self, c1: ConstraintsView, c0: ConstraintsView)
        requires
            self.extends(c1),
            c1.extends(c0),
        ensures
            self.extends(c0),
    {
        assert forall|d: int| c0.cg.has_dart(d) implies #[trigger] self.home[d] == c0.home[d]
            && self.width[d] == c0.width[d] && self.color_of(d) == c0.color_of(d) && self.cg.al(d, 1)
            == c0.cg.al(d, 1) && self.cg.al(d, 2) == c0.cg.al(d, 2) && (self.cg.is_free(d, 0)
            ==> c0.cg.is_free(d, 0)) by {
            assert(c1.home[d] == c0.home[d]);
        }
    }

    /// A new clause keeps what there is.
    pub proof fn lemma_with_clause_extends(self, n: int, color: Color, size: usize)
        requires
            self.wf(),
            n >= 1,
            size <= n,
            self.cg.ndarts() <= usize::MAX,
        ensures
            self.with_clause(n, color, size).extends(self),
            self.with_clause(n, color, size).fresh(self.cg.ndarts()),
            self.with_clause(n, color, size).width[self.cg.ndarts()] == n,
            self.with_clause(n, color, size).color_of(self.cg.ndarts()) == color,
            forall|e: int|
                self.cg.has_dart(e) ==> (#[trigger] self.with_clause(n, color, size).waiting(e)
                    == self.waiting(e)) && (self.with_clause(n, color, size).cg.is_free(e, 0)
                    == self.cg.is_free(e, 0)),
    {
        let c = self.with_clause(n, color, size);
        let s = self.cg.ndarts();
        self.lemma_with_clause(n, color, size);
        assert forall|d: int| self.cg.has_dart(d) implies #[trigger] c.home[d] == self.home[d]
            && c.width[d] == self.width[d] && c.color_of(d) == self.color_of(d) && c.cg.al(d, 1)
            == self.cg.al(d, 1) && c.cg.al(d, 2) == self.cg.al(d, 2) && (c.cg.is_free(d, 0)
            ==> self.cg.is_free(d, 0)) by {
            assert(c.cg.al(d, 0) == self.cg.al(d, 0));
            assert(c.cg.al(d, 1) == self.cg.al(d, 1));
            assert(c.cg.al(d, 2) == self.cg.al(d, 2));
        }
        assert(c.home[s] == s);
        assert forall|e: int| self.cg.has_dart(e) implies (#[trigger] c.waiting(e) == self.waiting(e))
            && (c.cg.is_free(e, 0) == self.cg.is_free(e, 0)) by {
            self.lemma_other_side(e);
            let x = self.cg.al(e, 2);
            assert(c.home[e] == self.home[e]);
            assert(c.cg.al(e, 0) == self.cg.al(e, 0));
            assert(c.cg.al(e, 2) == self.cg.al(e, 2));
            assert(c.cg.al(x, 0) == self.cg.al(x, 0));
        }
    }
}

/// The darts that stand for the corners of a face while the clauses of its
/// plan are made: `sd` lists a dart for every corner, given or spare; those
/// of the corners that no clause has joined yet are waiting, those of the
/// others are joined up, and a new dart below `end` that is free belongs to
/// a spare corner.
pub open spec fn plan_state(
    c0: ConstraintsView,
    c: ConstraintsView,
    corners: Seq<Dart>,
    sd: Seq<Dart>,
    used: Seq<int>,
    end: int,
) -> bool {
    let m = corners.len() as int;
    let n0 = c0.cg.ndarts();
    &&& c0.wf()
    &&& c.wf()
    &&& c.extends(c0)
    &&& sd.len() >= m
    &&& forall|x: int| #[trigger] listed(used, x) ==> 0 <= x < sd.len()
    &&& forall|s: int| 0 <= s < m ==> #[trigger] sd[s] == corners[s]
    &&& forall|s: int| 0 <= s < sd.len() ==> c.cg.has_dart(#[trigger] sd[s]@) && c.offset(sd[s]@) % 2 == 0
    &&& forall|s: int| 0 <= s < sd.len() && !listed(used, s) ==> c.waiting(#[trigger] sd[s]@)
    &&& forall|s: int| 0 <= s < sd.len() && listed(used, s) ==> c.joined_up(#[trigger] sd[s]@)
    &&& forall|s1: int, s2: int| 0 <= s1 < s2 < sd.len() ==> #[trigger] sd[s1]@ != #[trigger] sd[s2]@
    &&& forall|s: int| m <= s < sd.len() ==> c.home[#[trigger] sd[s]@] >= n0
    &&& forall|d: int|
        0 <= d < n0 && c0.cg.is_free(d, 0) && !c.cg.is_free(d, 0) ==> exists|s: int|
            0 <= s < m && #[trigger] c0.side_of(corners[s]@, d)
    &&& forall|d: int|
        n0 <= d < end && #[trigger] c.cg.is_free(d, 0) ==> exists|s: int|
            m <= s < sd.len() && #[trigger] c.side_of(sd[s]@, d)
}

/// The corners that the first clauses of a plan join come first among those
/// that the plan joins.
pub proof fn lemma_joined_prefix(plan: Seq<RedClause>, k: int)
    requires
        0 <= k <= plan.len(),
    ensures
        joined(plan) == joined(plan.take(k)) + joined(plan.skip(k)),
    decreases plan.len() - k,
{
    if k == plan.len() {
        assert(plan.take(k) =~= plan);
        assert(plan.skip(k) =~= Seq::<RedClause>::empty());
        assert(joined(plan) + Seq::<int>::empty() =~= joined(plan));
    } else {
        lemma_joined_prefix(plan, k + 1);
        assert(plan.take(k + 1).drop_last() =~= plan.take(k));
        assert(plan.take(k + 1).last() == plan[k]);
        lemma_joined_first(plan.skip(k));
        assert(plan.skip(k).drop_first() =~= plan.skip(k + 1));
        assert(joined(plan.take(k)) + (slot_ints(plan[k].slots@) + joined(plan.skip(k + 1))) =~= (
        joined(plan.take(k)) + slot_ints(plan[k].slots@)) + joined(plan.skip(k + 1)));
    }
}

/// The corners that a plan joins are those of its first clause, and then
/// those of the others.
pub proof fn lemma_joined_first(plan: Seq<RedClause>)
    requires
        plan.len() >= 1,
    ensures
        joined(plan) == slot_ints(plan[0].slots@) + joined(plan.drop_first()),
    decreases plan.len(),
{
    if plan.len() == 1 {
        assert(plan.drop_last() =~= Seq::<RedClause>::empty());
        assert(plan.drop_first() =~= Seq::<RedClause>::empty());
        assert(joined(plan.drop_last()) =~= Seq::<int>::empty());
        assert(joined(plan) =~= slot_ints(plan[0].slots@));
        assert(slot_ints(plan[0].slots@) + Seq::<int>::empty() =~= slot_ints(plan[0].slots@));
    } else {
        lemma_joined_first(plan.drop_last());
        assert(plan.drop_last().drop_first() =~= plan.drop_first().drop_last());
        assert(plan.drop_last()[0] == plan[0]);
        assert(plan.drop_first().last() == plan.last());
        assert((slot_ints(plan[0].slots@) + joined(plan.drop_first().drop_last())) + slot_ints(
            plan.last().slots@,
        ) =~= slot_ints(plan[0].slots@) + (joined(plan.drop_first().drop_last()) + slot_ints(
            plan.last().slots@,
        )));
    }
}

/// What a plan says of its clause `k`: the clause is in order, and the
/// corners that it joins are joined by no clause before it.
pub proof fn lemma_plan_step(m: int, exterior: bool, plan: Seq<RedClause>, k: int)
    requires
        plan_ok(m, exterior, plan),
        0 <= k < plan.len(),
    ensures
        clause_ok(plan[k], m + spares(plan.take(k))),
        joined(plan.take(k + 1)) == joined(plan.take(k)) + slot_ints(plan[k].slots@),
        spares(plan.take(k + 1)) == spares(plan.take(k)) + (if plan[k].spare is Some {
            1int
        } else {
            0int
        }),
        distinct(slot_ints(plan[k].slots@)),
        forall|x: int| #[trigger]
            listed(joined(plan.take(k)), x) ==> !listed(slot_ints(plan[k].slots@), x),
        k == plan.len() - 1 ==> plan[k].spare is None,
{
    assert(plan.take(k + 1).drop_last() =~= plan.take(k));
    assert(plan.take(k + 1).last() == plan[k]);
    lemma_joined_prefix(plan, k + 1);
    lemma_distinct_parts(joined(plan.take(k + 1)), joined(plan.skip(k + 1)));
    lemma_distinct_parts(joined(plan.take(k)), slot_ints(plan[k].slots@));
}

/// The darts of the clause that starts at `start`: those at the places
/// `1 ..= open` are free, the others joined.
pub open spec fn block_state(c: ConstraintsView, start: int, a: int, open: int) -> bool {
    &&& c.cg.ndarts() == start + 2 * a
    &&& c.width[start] == a
    &&& c.color_of(start) == Color::Red
    &&& forall|d: int|
        start <= d < start + 2 * a ==> #[trigger] c.home[d] == start && (c.cg.is_free(d, 0) == (1
            <= d - start <= open))
}

/// The darts of `sd` at `slots`.
pub open spec fn picked(sd: Seq<Dart>, slots: Seq<int>, edges: Seq<Dart>) -> bool {
    &&& edges.len() == slots.len()
    &&& forall|i: int| 0 <= i < slots.len() ==> 0 <= #[trigger] slots[i] < sd.len() && edges[i] == sd[slots[i]]
}

/// Before a clause joins the corners `slots`: their darts can be joined to a
/// new clause.
pub proof fn lemma_join_ready(
    c0: ConstraintsView,
    c: ConstraintsView,
    corners: Seq<Dart>,
    sd: Seq<Dart>,
    used: Seq<int>,
    slots: Seq<int>,
    edges: Seq<Dart>,
    a: int,
    size: usize,
)
    requires
        plan_state(c0, c, corners, sd, used, c.cg.ndarts()),
        c.cg.ndarts() <= usize::MAX,
        1 <= slots.len() <= a,
        size <= a,
        picked(sd, slots, edges),
        distinct(slots),
        forall|x: int| #[trigger] listed(used, x) ==> !listed(slots, x),
    ensures
        c.with_clause(a, Color::Red, size).wf(),
        c.with_clause(a, Color::Red, size).fresh(c.cg.ndarts()),
        c.with_clause(a, Color::Red, size).width[c.cg.ndarts()] == a,
        forall|i: int|
            0 <= i < edges.len() ==> {
                &&& c.with_clause(a, Color::Red, size).cg.has_dart(#[trigger] edges[i]@)
                &&& c.with_clause(a, Color::Red, size).unglued(edges[i]@)
                &&& c.with_clause(a, Color::Red, size).offset(edges[i]@) % 2 == 0
                &&& c.with_clause(a, Color::Red, size).home[edges[i]@] != c.cg.ndarts()
                &&& c.with_clause(a, Color::Red, size).color_of(edges[i]@) != c.with_clause(
                    a,
                    Color::Red,
                    size,
                ).color_of(c.cg.ndarts())
            },
        forall|i: int, j: int| 0 <= i < j < edges.len() ==> edges[i]@ != edges[j]@,
{
    let c1 = c.with_clause(a, Color::Red, size);
    let start = c.cg.ndarts();
    c.lemma_with_clause(a, Color::Red, size);
    c.lemma_with_clause_extends(a, Color::Red, size);
    assert forall|i: int| 0 <= i < edges.len() implies {
        &&& c1.cg.has_dart(#[trigger] edges[i]@)
        &&& c1.unglued(edges[i]@)
        &&& c1.offset(edges[i]@) % 2 == 0
        &&& c1.home[edges[i]@] != start
        &&& c1.color_of(edges[i]@) != c1.color_of(start)
    } by {
        let s = slots[i];
        assert(listed(slots, s));
        assert(!listed(used, s));
        assert(edges[i] == sd[s]);
        assert(c.waiting(sd[s]@));
        assert(c1.waiting(sd[s]@) == c.waiting(sd[s]@));
        assert(c.block_ok(sd[s]@));
        assert(c1.home[sd[s]@] == c.home[sd[s]@]);
    }
    assert forall|i: int, j: int| 0 <= i < j < edges.len() implies edges[i]@ != edges[j]@ by {
        lemma_distinct(slots, i, j);
        let s1 = slots[i];
        let s2 = slots[j];
        if s1 < s2 {
            assert(sd[s1]@ != sd[s2]@);
        } else {
            assert(sd[s2]@ != sd[s1]@);
        }
    }
}

/// After a clause has joined the corners `slots`: their darts are joined
/// up, the darts of the other corners are as they were, and of the new
/// clause the first places after its first dart are free, one variable for
/// every variable beyond the corners joined.
pub proof fn lemma_join_done(
    c0: ConstraintsView,
    c: ConstraintsView,
    c2: ConstraintsView,
    corners: Seq<Dart>,
    sd: Seq<Dart>,
    used: Seq<int>,
    slots: Seq<int>,
    edges: Seq<Dart>,
    a: int,
    size: usize,
)
    requires
        plan_state(c0, c, corners, sd, used, c.cg.ndarts()),
        c.cg.ndarts() <= usize::MAX,
        1 <= slots.len() <= a,
        size <= a,
        picked(sd, slots, edges),
        distinct(slots),
        forall|x: int| #[trigger] listed(used, x) ==> !listed(slots, x),
        c2.wf(),
        c2.same_but_links(c.with_clause(a, Color::Red, size)),
        forall|d: int|
            c.with_clause(a, Color::Red, size).cg.has_dart(d) ==> #[trigger] c2.cg.is_free(d, 0) == (
            c.with_clause(a, Color::Red, size).cg.is_free(d, 0) && !c.with_clause(
                a,
                Color::Red,
                size,
            ).touched(edges, c.cg.ndarts(), edges.len() as int, d)),
    ensures
        plan_state(c0, c2, corners, sd, used + slots, c.cg.ndarts()),
        block_state(c2, c.cg.ndarts(), a, 2 * a - 2 * slots.len()),
{
    let c1 = c.with_clause(a, Color::Red, size);
    let start = c.cg.ndarts();
    let n0 = c0.cg.ndarts();
    let m = corners.len() as int;
    let more = used + slots;
    let je = edges.len() as int;
    c.lemma_with_clause(a, Color::Red, size);
    c.lemma_with_clause_extends(a, Color::Red, size);
    lemma_join_ready(c0, c, corners, sd, used, slots, edges, a, size);
    // old darts keep their clause
    assert forall|d: int| c.cg.has_dart(d) implies #[trigger] c2.home[d] == c.home[d] && c2.width[d]
        == c.width[d] && c2.color_of(d) == c.color_of(d) && c2.cg.al(d, 1) == c.cg.al(d, 1)
        && c2.cg.al(d, 2) == c.cg.al(d, 2) && (c2.cg.is_free(d, 0) ==> c.cg.is_free(d, 0)) by {
        assert(c1.home[d] == c.home[d]);
        assert(c2.cg.al(d, 1) == c1.cg.al(d, 1));
        assert(c2.cg.al(d, 2) == c1.cg.al(d, 2));
        assert(c2.cg.is_free(d, 0) == (c1.cg.is_free(d, 0) && !c1.touched(edges, start, je, d)));
    }
    assert(c2.extends(c));
    c2.lemma_extends_trans(c, c0);
    assert forall|x: int| #[trigger] listed(more, x) implies 0 <= x < sd.len() by {
        lemma_listed_concat(used, slots, x);
        if listed(slots, x) {
            let i = choose|i: int| 0 <= i < slots.len() && #[trigger] slots[i] == x;
        }
    }
    // a dart of a corner that is not joined is not touched
    assert forall|s: int| 0 <= s < sd.len() implies c2.cg.has_dart(#[trigger] sd[s]@) && c2.offset(
        sd[s]@,
    ) % 2 == 0 by {
        assert(c.cg.has_dart(sd[s]@));
        assert(c2.home[sd[s]@] == c.home[sd[s]@]);
    }
    assert forall|s: int| 0 <= s < sd.len() && !listed(more, s) implies c2.waiting(
        #[trigger] sd[s]@,
    ) by {
        let e = sd[s]@;
        lemma_listed_concat(used, slots, s);
        assert(c.waiting(e));
        assert(c1.waiting(e) == c.waiting(e));
        c1.lemma_other_side(e);
        let x = c1.cg.al(e, 2);
        assert(c1.home[e] == c.home[e]);
        assert(c.block_ok(e));
        assert forall|i: int| 0 <= i < je implies !(#[trigger] c1.side_of(edges[i]@, e)) by {
            c1.lemma_other_side(edges[i]@);
            assert(listed(slots, slots[i]));
            let s2 = slots[i];
            if s2 < s {
                assert(sd[s2]@ != sd[s]@);
            } else {
                assert(sd[s]@ != sd[s2]@);
            }
        }
        assert forall|i: int| 0 <= i < je implies !(#[trigger] c1.side_of(edges[i]@, x)) by {
            c1.lemma_other_side(edges[i]@);
            assert(listed(slots, slots[i]));
            let s2 = slots[i];
            assert(!c1.side_of(edges[i]@, e));
            assert(c.cg.has_dart(sd[s2]@) && c.offset(sd[s2]@) % 2 == 0);
            assert(c1.home[sd[s2]@] == c.home[sd[s2]@]);
        }
        assert(!c1.touched(edges, start, je, e));
        assert(!c1.touched(edges, start, je, x));
        assert(c2.cg.is_free(e, 0) == (c1.cg.is_free(e, 0) && !c1.touched(edges, start, je, e)));
        assert(c2.cg.is_free(x, 0) == (c1.cg.is_free(x, 0) && !c1.touched(edges, start, je, x)));
        assert(c2.home[e] == c.home[e]);
        assert(c2.cg.al(e, 2) == c.cg.al(e, 2));
        assert(c.cg.al(e, 2) == x);
    }
    assert forall|s: int| 0 <= s < sd.len() && listed(more, s) implies c2.joined_up(
        #[trigger] sd[s]@,
    ) by {
        let e = sd[s]@;
        lemma_listed_concat(used, slots, s);
        c1.lemma_other_side(e);
        let x = c1.cg.al(e, 2);
        assert(c.cg.has_dart(e));
        assert(c.block_ok(e));
        assert(c2.home[e] == c.home[e]);
        assert(c2.home[x] == c.home[x]);
        assert(c2.cg.al(e, 2) == c.cg.al(e, 2));
        assert(c.cg.al(e, 2) == x);
        if listed(used, s) {
            assert(c.joined_up(e));
        } else {
            let i = choose|i: int| 0 <= i < slots.len() && #[trigger] slots[i] == s;
            assert(edges[i]@ == e);
            assert(c1.side_of(edges[i]@, e) && c1.side_of(edges[i]@, x));
            assert(c1.touched(edges, start, je, e));
            assert(c1.touched(edges, start, je, x));
            assert(c2.cg.is_free(e, 0) == (c1.cg.is_free(e, 0) && !c1.touched(edges, start, je, e)));
            assert(c2.cg.is_free(x, 0) == (c1.cg.is_free(x, 0) && !c1.touched(edges, start, je, x)));
        }
    }
    assert forall|s: int| m <= s < sd.len() implies c2.home[#[trigger] sd[s]@] >= n0 by {
        assert(c.cg.has_dart(sd[s]@));
        assert(c2.home[sd[s]@] == c.home[sd[s]@]);
    }
    assert forall|d: int| 0 <= d < n0 && c0.cg.is_free(d, 0) && !c2.cg.is_free(d, 0) implies exists|
        s: int,
    |
        0 <= s < m && #[trigger] c0.side_of(corners[s]@, d) by {
        assert(c2.cg.is_free(d, 0) == (c1.cg.is_free(d, 0) && !c1.touched(edges, start, je, d)));
        assert(c1.cg.is_free(d, 0) == c.cg.is_free(d, 0));
        assert(c.home[d] == c0.home[d]);
        assert(c0.block_ok(d));
        if c.cg.is_free(d, 0) {
            assert(c1.touched(edges, start, je, d));
            assert(c1.home[d] == c.home[d]);
            let i = choose|i: int| 0 <= i < je && #[trigger] c1.side_of(edges[i]@, d);
            let s = slots[i];
            let e = sd[s]@;
            assert(edges[i]@ == e);
            c1.lemma_other_side(e);
            assert(c.cg.has_dart(e));
            assert(c1.home[e] == c.home[e]);
            assert(c1.home[d] == c1.home[e]);
            if s >= m {
                assert(c.home[e] >= n0);
                assert(false);
            }
            assert(sd[s] == corners[s]);
            assert(c0.cg.has_dart(e)) by {
                assert(c.block_ok(e));
                assert(c.block_ok(d));
                c.lemma_other_side(e);
                c0.lemma_other_side(d);
                assert(c.cg.al(d, 2) == c0.cg.al(d, 2));
            }
            assert(c1.cg.al(e, 2) == c.cg.al(e, 2));
            assert(c.cg.al(e, 2) == c0.cg.al(e, 2));
            assert(c0.side_of(corners[s]@, d));
        }
    }
    assert forall|d: int| n0 <= d < start && #[trigger] c2.cg.is_free(d, 0) implies exists|s: int|
        m <= s < sd.len() && #[trigger] c2.side_of(sd[s]@, d) by {
        assert(c2.cg.is_free(d, 0) == (c1.cg.is_free(d, 0) && !c1.touched(edges, start, je, d)));
        assert(c1.cg.is_free(d, 0) == c.cg.is_free(d, 0));
        let s = choose|s: int| m <= s < sd.len() && #[trigger] c.side_of(sd[s]@, d);
        assert(c.cg.has_dart(sd[s]@));
        assert(c2.cg.al(sd[s]@, 2) == c.cg.al(sd[s]@, 2));
        assert(c2.side_of(sd[s]@, d));
    }
    assert forall|d: int| start <= d < start + 2 * a implies #[trigger] c2.home[d] == start && (
    c2.cg.is_free(d, 0) == (1 <= d - start <= 2 * a - 2 * slots.len())) by {
        assert(c1.home[d] == start);
        assert(c2.cg.is_free(d, 0) == (c1.cg.is_free(d, 0) && !c1.touched(edges, start, je, d)));
        assert forall|i: int| 0 <= i < je implies !(#[trigger] c1.side_of(edges[i]@, d)) by {
            c1.lemma_other_side(edges[i]@);
        }
    }
    assert(c1.home[start] == start);
}

/// A spare corner: a blue clause of two variables, one of them joined to the
/// variable that a red clause has left, the other waiting.
pub proof fn lemma_spared(
    c0: ConstraintsView,
    c2: ConstraintsView,
    corners: Seq<Dart>,
    sd: Seq<Dart>,
    used: Seq<int>,
    start: int,
    a: int,
    spare: Dart,
)
    requires
        plan_state(c0, c2, corners, sd, used, start),
        block_state(c2, start, a, 2),
        a >= 2,
        c2.cg.ndarts() <= usize::MAX,
        n0_le(c0, start),
        spare@ == start + 2 * a + 2,
    ensures
        c2.with_clause(2, Color::Blue, 1).wf(),
        c2.with_clause(2, Color::Blue, 1).cg.has_dart(start + 2),
        c2.with_clause(2, Color::Blue, 1).cg.has_dart(start + 2 * a),
        c2.with_clause(2, Color::Blue, 1).unglued(start + 2),
        c2.with_clause(2, Color::Blue, 1).unglued(start + 2 * a),
        c2.with_clause(2, Color::Blue, 1).home[start + 2] != c2.with_clause(
            2,
            Color::Blue,
            1,
        ).home[start + 2 * a],
        c2.with_clause(2, Color::Blue, 1).color_of(start + 2) != c2.with_clause(
            2,
            Color::Blue,
            1,
        ).color_of(start + 2 * a),
        c2.with_clause(2, Color::Blue, 1).cg.al(start, 1) == start + 1,
        c2.with_clause(2, Color::Blue, 1).cg.al(start + 1, 2) == start + 2,
        c2.with_clause(2, Color::Blue, 1).glued(start + 2, start + 2 * a).cg.al(start + 2 * a, 2)
            == start + 2 * a + 3,
        c2.with_clause(2, Color::Blue, 1).glued(start + 2, start + 2 * a).cg.al(
            start + 2 * a + 3,
            1,
        ) == start + 2 * a + 2,
        c2.with_clause(2, Color::Blue, 1).glued(start + 2, start + 2 * a).wf() ==> plan_state(
            c0,
            c2.with_clause(2, Color::Blue, 1).glued(start + 2, start + 2 * a),
            corners,
            sd.push(spare),
            used,
            start + 2 * a + 4,
        ),
{
    let c3 = c2.with_clause(2, Color::Blue, 1);
    let aux = start + 2 * a;
    let e = start + 2;
    let c4 = c3.glued(e, aux);
    let n0 = c0.cg.ndarts();
    let m = corners.len() as int;
    c2.lemma_with_clause(2, Color::Blue, 1);
    c2.lemma_with_clause_extends(2, Color::Blue, 1);
    assert(c2.home[start] == start);
    assert(c2.block_ok(start));
    assert(c2.home[e] == start && c2.cg.is_free(e, 0));
    assert(c2.home[start + 1] == start && c2.cg.is_free(start + 1, 0));
    assert(c2.block_ok(e));
    assert(c2.block_ok(start + 1));
    assert(c3.cg.al(e, 2) == c2.cg.al(e, 2));
    assert(c3.cg.al(start, 1) == c2.cg.al(start, 1));
    assert(c3.cg.al(start + 1, 2) == c2.cg.al(start + 1, 2));
    assert(c3.cg.al(e, 0) == c2.cg.al(e, 0));
    assert(c3.cg.al(start + 1, 0) == c2.cg.al(start + 1, 0));
    assert(c3.home[e] == c2.home[e]);
    assert(c3.home[aux] == aux);
    assert(c3.cg.is_free(aux, 0));
    assert(c3.cg.al(aux, 2) == chain_image(aux, 2, 1, 2, true, 0, 2));
    assert(c3.cg.al(aux + 3, 1) == chain_image(aux, 2, 1, 2, true, 3, 1));
    assert(c3.cg.al(aux + 2, 2) == chain_image(aux, 2, 1, 2, true, 2, 2));
    assert(c3.home[aux + 3] == aux && c3.cg.is_free(aux + 3, 0));
    assert(c3.home[aux + 2] == aux && c3.cg.is_free(aux + 2, 0));
    assert(c3.home[aux + 1] == aux && c3.cg.is_free(aux + 1, 0));
    assert(c3.color_of(e) == c2.color_of(e));
    assert(c2.color_of(e) == c2.color_of(start));
    c3.lemma_glued(e, aux);
    if c4.wf() {
        let sd2 = sd.push(spare);
        assert forall|d: int| c2.cg.has_dart(d) implies #[trigger] c4.home[d] == c2.home[d]
            && c4.width[d] == c2.width[d] && c4.color_of(d) == c2.color_of(d) && c4.cg.al(d, 1)
            == c2.cg.al(d, 1) && c4.cg.al(d, 2) == c2.cg.al(d, 2) && (c4.cg.is_free(d, 0)
            ==> c2.cg.is_free(d, 0)) by {
            assert(c3.home[d] == c2.home[d]);
            assert(c4.cg.al(d, 1) == c3.cg.al(d, 1));
            assert(c4.cg.al(d, 2) == c3.cg.al(d, 2));
            assert(c3.cg.al(d, 0) == c2.cg.al(d, 0));
            assert(c3.cg.al(d, 1) == c2.cg.al(d, 1));
            assert(c3.cg.al(d, 2) == c2.cg.al(d, 2));
            if d != e && d != start + 1 {
                assert(c4.cg.al(d, 0) == c3.cg.al(d, 0));
            }
        }
        assert(c4.extends(c2));
        c4.lemma_extends_trans(c2, c0);
        assert forall|s: int| 0 <= s < sd2.len() implies c4.cg.has_dart(#[trigger] sd2[s]@)
            && c4.offset(sd2[s]@) % 2 == 0 by {
            if s < sd.len() {
                assert(c2.cg.has_dart(sd[s]@));
                assert(c4.home[sd[s]@] == c2.home[sd[s]@]);
            }
        }
        assert forall|s: int| 0 <= s < sd2.len() && !listed(used, s) implies c4.waiting(
            #[trigger] sd2[s]@,
        ) by {
            if s < sd.len() {
                let x = sd[s]@;
                assert(c2.waiting(x));
                c2.lemma_other_side(x);
                let y = c2.cg.al(x, 2);
                assert(c4.home[x] == c2.home[x]);
                assert(c4.cg.al(x, 2) == y);
                assert(c2.home[e] == start);
                if c2.home[x] == start {
                    assert(c2.cg.is_free(x, 0) == (1 <= x - start <= 2));
                    assert(false);
                }
                assert(c3.cg.al(x, 0) == c2.cg.al(x, 0));
                assert(c3.cg.al(y, 0) == c2.cg.al(y, 0));
                assert(c4.cg.al(x, 0) == c3.cg.al(x, 0));
                assert(c4.cg.al(y, 0) == c3.cg.al(y, 0));
            } else {
                assert(sd2[s] == spare);
                assert(c4.cg.al(aux + 2, 2) == c3.cg.al(aux + 2, 2));
                assert(c4.cg.al(aux + 2, 0) == c3.cg.al(aux + 2, 0));
                assert(c4.cg.al(aux + 1, 0) == c3.cg.al(aux + 1, 0));
                assert(c3.color_of(aux + 2) == Color::Blue);
            }
        }
        assert forall|s: int| 0 <= s < sd2.len() && listed(used, s) implies c4.joined_up(
            #[trigger] sd2[s]@,
        ) by {
            if s < sd.len() {
                let x = sd[s]@;
                assert(c2.joined_up(x));
                c2.lemma_other_side(x);
                let y = c2.cg.al(x, 2);
                assert(c4.cg.al(x, 2) == y);
                assert(c3.cg.al(x, 0) == c2.cg.al(x, 0));
                assert(c3.cg.al(y, 0) == c2.cg.al(y, 0));
                assert(c4.cg.al(x, 0) == c3.cg.al(x, 0));
                assert(c4.cg.al(y, 0) == c3.cg.al(y, 0));
            }
        }
        assert forall|s1: int, s2: int| 0 <= s1 < s2 < sd2.len() implies #[trigger] sd2[s1]@
            != #[trigger] sd2[s2]@ by {
            if s2 < sd.len() {
                assert(sd[s1]@ != sd[s2]@);
            } else {
                assert(c2.cg.has_dart(sd[s1]@));
            }
        }
        assert forall|s: int| m <= s < sd2.len() implies c4.home[#[trigger] sd2[s]@] >= n0 by {
            if s < sd.len() {
                assert(c2.cg.has_dart(sd[s]@));
                assert(c2.home[sd[s]@] >= n0);
                assert(c4.home[sd[s]@] == c2.home[sd[s]@]);
            }
        }
        assert forall|d: int| 0 <= d < n0 && c0.cg.is_free(d, 0) && !c4.cg.is_free(d, 0) implies exists|
            s: int,
        |
            0 <= s < m && #[trigger] c0.side_of(corners[s]@, d) by {
            assert(c3.cg.al(d, 0) == c2.cg.al(d, 0));
            assert(c4.cg.al(d, 0) == c3.cg.al(d, 0));
        }
        assert forall|d: int| n0 <= d < aux + 4 && #[trigger] c4.cg.is_free(d, 0) implies exists|
            s: int,
        |
            m <= s < sd2.len() && #[trigger] c4.side_of(sd2[s]@, d) by {
            if d < aux {
                assert(c3.cg.al(d, 0) == c2.cg.al(d, 0));
                if d != e && d != start + 1 {
                    assert(c4.cg.al(d, 0) == c3.cg.al(d, 0));
                }
                if d < start {
                    assert(c2.cg.is_free(d, 0));
                    let s = choose|s: int| m <= s < sd.len() && #[trigger] c2.side_of(sd[s]@, d);
                    assert(c2.cg.has_dart(sd[s]@));
                    assert(c4.cg.al(sd[s]@, 2) == c2.cg.al(sd[s]@, 2));
                    assert(sd2[s] == sd[s]);
                    assert(c4.side_of(sd2[s]@, d));
                } else {
                    assert(start <= d < start + 2 * a);
                    assert(c2.home[d] == start);
                    assert(c2.cg.is_free(d, 0) == (1 <= d - start <= 2));
                    assert(c2.cg.is_free(d, 0));
                    assert(false);
                }
            } else {
                let s = sd.len() as int;
                assert(sd2[s] == spare);
                assert(c3.home[d] == aux);
                if d != aux && d != aux + 3 {
                    assert(c4.cg.al(aux + 2, 2) == c3.cg.al(aux + 2, 2));
                    assert(c4.side_of(sd2[s]@, d));
                } else {
                    assert(false);
                }
            }
        }
    }
}

/// The map of `c0` ends no later than at `start`.
pub open spec fn n0_le(c0: ConstraintsView, start: int) -> bool {
    c0.cg.ndarts() <= start
}

/// The clauses after one clause of a plan is made, with the darts that
/// stand for the corners: the red clause is added and joined to the darts
/// of its corners; for a spare corner a blue clause of two variables is
/// added, one of them joined to the variable that the red clause has left,
/// and the other stands for the spare corner.
pub open spec fn plan_step(c: ConstraintsView, sd: Seq<Dart>, clause: ClauseView) -> (
    ConstraintsView,
    Seq<Dart>,
) {
    let start = c.cg.ndarts();
    let a = clause.arity;
    let edges = Seq::new(clause.slots.len(), |i: int| sd[clause.slots[i]]);
    let c2 = c.with_clause(a, Color::Red, clause.mountains as usize).glued_all(
        edges,
        start,
        edges.len() as int,
    );
    if clause.spare is Some {
        let aux = start + 2 * a;
        (
            c2.with_clause(2, Color::Blue, 1).glued(start + 2, aux),
            sd.push(Dart((aux + 2) as usize)),
        )
    } else {
        (c2, sd)
    }
}

/// The clauses after the first `k` clauses of a plan are made, with the
/// darts that stand for the corners.
#[verifier::opaque]
pub open spec fn planned(c0: ConstraintsView, corners: Seq<Dart>, plan: Seq<ClauseView>, k: int) -> (
    ConstraintsView,
    Seq<Dart>,
)
    decreases k,
{
    if k <= 0 {
        (c0, corners)
    } else {
        let before = planned(c0, corners, plan, k - 1);
        plan_step(before.0, before.1, plan[k - 1])
    }
}

/// How the clauses of a plan are made, one after the other.
pub proof fn lemma_planned(c0: ConstraintsView, corners: Seq<Dart>, plan: Seq<ClauseView>, k: int)
    requires
        0 <= k,
    ensures
        planned(c0, corners, plan, 0) == (c0, corners),
        planned(c0, corners, plan, k + 1) == plan_step(
            planned(c0, corners, plan, k).0,
            planned(c0, corners, plan, k).1,
            plan[k],
        ),
{
    reveal(planned);
}

/// The darts of `slot_darts` at `slots`.
fn pick(slot_darts: &Vec<Dart>, slots: &Vec<usize>) -> (edges: Vec<Dart>)
    requires
        forall|i: int| 0 <= i < slots@.len() ==> #[trigger] slots@[i] < slot_darts@.len(),
    ensures
        picked(slot_darts@, slot_ints(slots@), edges@),
{
    let mut edges: Vec<Dart> = Vec::new();
    let mut i: usize = 0;
    while i < slots.len()
        invariant
            i <= slots@.len(),
            edges@.len() == i,
            forall|k: int| 0 <= k < slots@.len() ==> #[trigger] slots@[k] < slot_darts@.len(),
            forall|k: int| 0 <= k < i ==> #[trigger] edges@[k] == slot_darts@[slots@[k] as int],
        decreases slots@.len() - i,
    {
        edges.push(slot_darts[slots[i]]);
        i += 1;
    }
    edges
}

/// Makes one clause of a plan: the red clause, joined to the darts of its
/// corners, and for a spare corner the blue clause of two variables, whose
/// second dart is added to the darts of the corners.
fn make_clause(
    cons: &mut Constraints,
    slot_darts: &mut Vec<Dart>,
    clause: &RedClause,
    Ghost(c0): Ghost<ConstraintsView>,
    Ghost(corners): Ghost<Seq<Dart>>,
    Ghost(used): Ghost<Seq<int>>,
)
    requires
        old(cons).wf(),
        plan_state(c0, old(cons)@, corners, old(slot_darts)@, used, old(cons)@.cg.ndarts()),
        clause_ok(*clause, old(slot_darts)@.len() as int),
        distinct(slot_ints(clause.slots@)),
        forall|x: int| #[trigger] listed(used, x) ==> !listed(slot_ints(clause.slots@), x),
    ensures
        final(cons).wf(),
        (final(cons)@, final(slot_darts)@) == plan_step(old(cons)@, old(slot_darts)@, clause@),
        plan_state(
            c0,
            final(cons)@,
            corners,
            final(slot_darts)@,
            used + slot_ints(clause.slots@),
            final(cons)@.cg.ndarts(),
        ),
        final(slot_darts)@.len() == old(slot_darts)@.len() + (if clause.spare is Some {
            1int
        } else {
            0int
        }),
{
    let ghost c = cons@;
    let ghost sd = slot_darts@;
    let ghost slots = slot_ints(clause.slots@);
    let walk: [usize; 2] = [2, 1];
    let back: [usize; 2] = [1, 2];
    proof {
        assert(crate::gmap::ints(walk@) =~= seq![2int, 1int]);
        assert(crate::gmap::ints(back@) =~= seq![1int, 2int]);
        assert forall|i: int| 0 <= i < clause.slots@.len() implies #[trigger] clause.slots@[i]
            < slot_darts@.len() by {}
    }
    let edges = pick(slot_darts, &clause.slots);
    let total: usize = cons.cg.ndarts();
    proof {
        assert forall|i: int| 0 <= i < clause.slots@.len() implies edges@[i] == sd[clause@.slots[i]] by {
            assert(slots[i] == clause.slots@[i]);
        }
        assert(edges@ =~= Seq::new(clause@.slots.len(), |i: int| sd[clause@.slots[i]]));
        lemma_join_ready(c0, c, corners, sd, used, slots, edges@, clause.arity as int, clause.mountains);
    }
    let start = cons.add_clause(clause.arity, Color::Red, clause.mountains);
    glue_clause(cons, &edges, start);
    let ghost c2 = cons@;
    proof {
        cons.lemma_wf();
        lemma_join_done(
            c0,
            c,
            c2,
            corners,
            sd,
            used,
            slots,
            edges@,
            clause.arity as int,
            clause.mountains,
        );
    }
    match clause.spare {
        Some(_) => {
            let ghost a = clause.arity as int;
            proof {
                assert(c2.block_ok(start@));
            }
            let hold = cons.cg.al(start, &back);
            let aux = cons.add_clause(2, Color::Blue, 1);
            let ghost c3 = cons@;
            let spare = cons.cg.al(aux, &walk);
            proof {
                cons.lemma_wf();
                c2.lemma_with_clause(2, Color::Blue, 1);
                c3.cg.lemma_step(aux@, 2, 1);
                assert(c3.cg.al(aux@, 2) == chain_image(aux@, 2, 1, 2, true, 0, 2));
                assert(c3.cg.al(aux@ + 3, 1) == chain_image(aux@, 2, 1, 2, true, 3, 1));
                assert(spare@ == start@ + 2 * a + 2);
                c2.cg.lemma_step(start@, 1, 2);
                assert(c2.block_ok(start@ + 1)) by {
                    assert(c2.cg.has_dart(start@ + 1));
                }
                assert(hold@ == start@ + 2);
                assert(n0_le(c0, start@));
                lemma_spared(c0, c2, corners, sd, used + slots, start@, a, spare);
            }
            cons.glue(hold, aux);
            proof {
                cons.lemma_wf();
                assert(spare == Dart((start@ + 2 * a + 2) as usize));
            }
            slot_darts.push(spare);
        },
        None => {
            proof {
                lemma_closed(c0, c2, corners, sd, used + slots, start@, clause.arity as int);
            }
        },
    }
}

/// Makes the red clauses of a plan for one face. `corners` holds, for every
/// corner of the face that is not flat, the dart that stands for it in the
/// blue clause of its vertex. Every clause of the plan becomes a red clause,
/// joined to the darts of its corners; a clause with a spare corner gets a
/// blue clause of two variables, one joined to the variable that the red
/// clause has left, the other standing for the spare corner.
pub fn apply_plan(cons: &mut Constraints, plan: &Vec<RedClause>, corners: &Vec<Dart>, exterior: bool)
    requires
        old(cons).wf(),
        plan_ok(corners@.len() as int, exterior, plan@),
        forall|s: int| 0 <= s < corners@.len() ==> old(cons)@.waiting(#[trigger] corners@[s]@),
        forall|s1: int, s2: int|
            0 <= s1 < s2 < corners@.len() ==> #[trigger] corners@[s1]@ != #[trigger] corners@[s2]@,
    ensures
        final(cons).wf(),
        final(cons)@ == planned(old(cons)@, corners@, views(plan@), plan@.len() as int).0,
        final(cons)@.extends(old(cons)@),
        forall|s: int| 0 <= s < corners@.len() ==> final(cons)@.joined_up(#[trigger] corners@[s]@),
        forall|d: int|
            old(cons)@.cg.has_dart(d) && old(cons)@.cg.is_free(d, 0) && !final(cons)@.cg.is_free(d, 0)
                ==> exists|s: int|
                0 <= s < corners@.len() && #[trigger] old(cons)@.side_of(corners@[s]@, d),
        forall|d: int|
            old(cons)@.cg.ndarts() <= d < final(cons)@.cg.ndarts() ==> !#[trigger] final(cons)@.cg.is_free(d, 0),
{
    let ghost c0 = cons@;
    let ghost m = corners@.len() as int;
    let mut slot_darts: Vec<Dart> = Vec::new();
    let mut s: usize = 0;
    while s < corners.len()
        invariant
            s <= corners@.len(),
            slot_darts@ == corners@.take(s as int),
        decreases corners@.len() - s,
    {
        slot_darts.push(corners[s]);
        proof {
            assert(corners@.take(s as int).push(corners@[s as int]) =~= corners@.take(s + 1));
        }
        s += 1;
    }
    proof {
        cons.lemma_wf();
        lemma_planned(c0, corners@, views(plan@), 0);
        assert(corners@.take(s as int) =~= corners@);
        assert(plan@.take(0) =~= Seq::<RedClause>::empty());
        let used = joined(plan@.take(0));
        assert forall|e: int| 0 <= e < slot_darts@.len() implies c0.cg.has_dart(
            #[trigger] slot_darts@[e]@,
        ) && c0.offset(slot_darts@[e]@) % 2 == 0 by {
            assert(c0.waiting(corners@[e]@));
        }
        assert(plan_state(c0, c0, corners@, slot_darts@, used, c0.cg.ndarts()));
    }
    let mut k: usize = 0;
    while k < plan.len()
        invariant
            cons.wf(),
            k <= plan@.len(),
            m == corners@.len(),
            plan_ok(m, exterior, plan@),
            slot_darts@.len() == m + spares(plan@.take(k as int)),
            (cons@, slot_darts@) == planned(c0, corners@, views(plan@), k as int),
            plan_state(
                c0,
                cons@,
                corners@,
                slot_darts@,
                joined(plan@.take(k as int)),
                cons@.cg.ndarts(),
            ),
        decreases plan@.len() - k,
    {
        proof {
            lemma_planned(c0, corners@, views(plan@), k as int);
            assert(views(plan@)[k as int] == plan@[k as int]@);
            lemma_plan_step(m, exterior, plan@, k as int);
        }
        make_clause(
            cons,
            &mut slot_darts,
            &plan[k],
            Ghost(c0),
            Ghost(corners@),
            Ghost(joined(plan@.take(k as int))),
        );
        k += 1;
    }
    proof {
        let used = joined(plan@.take(k as int));
        let c = cons@;
        let sd = slot_darts@;
        assert(plan@.take(k as int) =~= plan@);
        assert forall|s: int| 0 <= s < corners@.len() implies c.joined_up(#[trigger] corners@[s]@) by {
            assert(listed(used, s));
            assert(sd[s] == corners@[s]);
            assert(c.joined_up(sd[s]@));
        }
        assert forall|d: int| c0.cg.ndarts() <= d < c.cg.ndarts() implies !#[trigger] c.cg.is_free(
            d,
            0,
        ) by {
            if c.cg.is_free(d, 0) {
                let s = choose|s: int| m <= s < sd.len() && #[trigger] c.side_of(sd[s]@, d);
                assert(listed(used, s));
                assert(c.joined_up(sd[s]@));
            }
        }
    }
}

/// A clause that joins as many corners as it has variables leaves none of
/// its darts free.
pub proof fn lemma_closed(
    c0: ConstraintsView,
    c2: ConstraintsView,
    corners: Seq<Dart>,
    sd: Seq<Dart>,
    used: Seq<int>,
    start: int,
    a: int,
)
    requires
        plan_state(c0, c2, corners, sd, used, start),
        block_state(c2, start, a, 0),
    ensures
        plan_state(c0, c2, corners, sd, used, c2.cg.ndarts()),
{
    let m = corners.len() as int;
    assert forall|d: int| c0.cg.ndarts() <= d < c2.cg.ndarts() && #[trigger] c2.cg.is_free(d, 0) implies exists|
        s: int,
    |
        m <= s < sd.len() && #[trigger] c2.side_of(sd[s]@, d) by {
        if d >= start {
            assert(c2.home[d] == start);
        }
    }
}

} // verus!
