//! Attributes of orbits: a map that holds one value per dart and writes a
//! whole orbit at a time, and tables of orbit representatives.

use crate::dart::{Alphas, Dart};
use crate::gmap::GMap;
use crate::listing::listed;
use crate::model::GMapView;
use crate::orbit::{all_false, dart_seq};
use std::collections::HashMap;
use vstd::prelude::*;

verus! {

broadcast use vstd::std_specs::hash::group_hash_axioms;

/// The value held for the first dart of `xs` that `m` has a value for.
pub open spec fn first_held<A>(m: Map<usize, A>, xs: Seq<int>) -> Option<A>
    decreases xs.len(),
{
    if xs.len() == 0 {
        None
    } else {
        match first_held(m, xs.drop_last()) {
            Some(v) => Some(v),
            None => if m.contains_key(xs.last() as usize) {
                Some(m[xs.last() as usize])
            } else {
                None
            },
        }
    }
}

/// `first_held` finds a value exactly when some dart of the list has one, and
/// the value it finds is held for a dart of the list.
pub proof fn lemma_first_held<A>(m: Map<usize, A>, xs: Seq<int>)
    ensures
        match first_held(m, xs) {
            Some(v) => exists|k: int|
                0 <= k < xs.len() && m.contains_key(#[trigger] xs[k] as usize) && m[xs[k] as usize]
                    == v,
            None => forall|k: int| 0 <= k < xs.len() ==> !m.contains_key(#[trigger] xs[k] as usize),
        },
    decreases xs.len(),
{
    if xs.len() > 0 {
        let xs0 = xs.drop_last();
        lemma_first_held(m, xs0);
        match first_held(m, xs0) {
            Some(v) => {
                let k = choose|k: int|
                    0 <= k < xs0.len() && m.contains_key(#[trigger] xs0[k] as usize)
                        && m[xs0[k] as usize] == v;
                assert(m.contains_key(xs[k] as usize) && m[xs[k] as usize] == v);
            },
            None => {
                if m.contains_key(xs.last() as usize) {
                    let k = xs.len() - 1;
                    assert(m.contains_key(xs[k] as usize) && m[xs[k] as usize] == m[xs.last() as usize]);
                } else {
                    assert forall|k: int| 0 <= k < xs.len() implies !m.contains_key(
                        #[trigger] xs[k] as usize,
                    ) by {
                        if k < xs0.len() {
                            assert(!m.contains_key(xs0[k] as usize));
                        }
                    }
                }
            },
        }
    }
}

/// One of the first `t` darts of `ob` has index `e`.
spec fn among(ob: Seq<Dart>, t: int, e: usize) -> bool {
    exists|m: int| 0 <= m < t && #[trigger] ob[m].0 == e
}

/// A map from darts to values that is written one orbit at a time: every dart
/// of an orbit holds a copy of the value of the orbit.
pub struct OrbitMap<A> {
    map: HashMap<usize, A>,
    indices: Alphas,
}

impl<A> View for OrbitMap<A> {
    type V = Map<usize, A>;

    closed spec fn view(&self) -> Map<usize, A> {
        self.map@
    }
}

impl<A: Clone> OrbitMap<A> {
    /// The mask of the orbits that the map is keyed by.
    pub closed spec fn mask(&self) -> Alphas {
        self.indices
    }

    pub fn new(indices: Alphas) -> (r: Self)
        ensures
            r@ == Map::<usize, A>::empty(),
            r.mask() == indices,
    {
        OrbitMap { map: HashMap::new(), indices }
    }

    /// A map keyed by the `i`-cells.
    pub fn over_cells(i: usize) -> (r: Self)
        requires
            i < 32,
        ensures
            r@ == Map::<usize, A>::empty(),
            r.mask() == Alphas::spec_cell(i as int),
    {
        Self::new(Alphas::cell(i))
    }

    /// The table from the index of a dart to the value it holds.
    pub fn map(&self) -> (r: &HashMap<usize, A>)
        ensures
            r@ == self@,
    {
        &self.map
    }

    pub fn into_map(self) -> (r: HashMap<usize, A>)
        ensures
            r@ == self@,
    {
        self.map
    }

    pub fn indices(&self) -> (r: Alphas)
        ensures
            r == self.mask(),
    {
        self.indices
    }

    /// Writes a copy of `v` for every dart of the orbit of `k`.
    pub fn insert(&mut self, g: &GMap, k: Dart, v: A)
        requires
            g.wf_links(),
            g@.has_dart(k@),
        ensures
            final(self).mask() == old(self).mask(),
            forall|e: usize|
                #![trigger final(self)@.contains_key(e)]
                #![trigger final(self)@[e]]
                g@.reaches(old(self).mask(), k@, e as int) ==> final(self)@.contains_key(e)
                    && cloned(v, final(self)@[e]),
            forall|e: usize|
                #![trigger final(self)@.contains_key(e)]
                #![trigger final(self)@[e]]
                !g@.reaches(old(self).mask(), k@, e as int) ==> (final(self)@.contains_key(e) == old(
                    self,
                )@.contains_key(e)) && (old(self)@.contains_key(e) ==> final(self)@[e] == old(
                    self,
                )@[e]),
    {
        let ob = g.orbit(k, self.indices);
        let ghost xs = dart_seq(ob@);
        let mut t: usize = 0;
        while t < ob.len()
            invariant
                t <= ob@.len(),
                xs == dart_seq(ob@),
                self.indices == old(self).indices,
                forall|m: int| 0 <= m < ob@.len() ==> g@.has_dart(#[trigger] ob@[m]@),
                forall|e: usize|
                    #![trigger self.map@.contains_key(e)]
                    #![trigger self.map@[e]]
                    among(ob@, t as int, e) ==> self.map@.contains_key(e) && cloned(v, self.map@[e]),
                forall|e: usize|
                    #![trigger self.map@.contains_key(e)]
                    #![trigger self.map@[e]]
                    !among(ob@, t as int, e) ==> (self.map@.contains_key(e) == old(
                        self,
                    ).map@.contains_key(e)) && (old(self).map@.contains_key(e) ==> self.map@[e]
                        == old(self).map@[e]),
            decreases ob@.len() - t,
        {
            let e: Dart = ob[t];
            let c = v.clone();
            let ghost before = self.map@;
            self.map.insert(e.0, c);
            proof {
                assert(self.map@ == before.insert(e.0, c));
                assert forall|x: usize| among(ob@, t as int + 1, x) <==> (among(ob@, t as int, x) || x
                    == e.0) by {
                    if among(ob@, t as int + 1, x) {
                        let m = choose|m: int| 0 <= m < t + 1 && #[trigger] ob@[m].0 == x;
                        if m < t {
                            assert(ob@[m].0 == x);
                        }
                    }
                    if among(ob@, t as int, x) {
                        let m = choose|m: int| 0 <= m < t && #[trigger] ob@[m].0 == x;
                        assert(ob@[m].0 == x);
                    }
                    if x == e.0 {
                        assert(ob@[t as int].0 == x);
                    }
                }
            }
            t += 1;
        }
        proof {
            assert forall|e: usize| among(ob@, ob@.len() as int, e) <==> g@.reaches(
                old(self).mask(),
                k@,
                e as int,
            ) by {
                if among(ob@, ob@.len() as int, e) {
                    let m = choose|m: int| 0 <= m < ob@.len() && #[trigger] ob@[m].0 == e;
                    assert(xs[m] == e as int);
                    assert(listed(xs, e as int));
                }
                if g@.reaches(old(self).mask(), k@, e as int) {
                    assert(listed(xs, e as int));
                    let m = choose|m: int| 0 <= m < xs.len() && #[trigger] xs[m] == e as int;
                    assert(ob@[m].0 == e);
                }
            }
        }
    }

    /// Clears every dart of the orbit of `k`, and returns the value that was
    /// held for the first dart of the orbit that had one.
    pub fn remove(&mut self, g: &GMap, k: Dart) -> (r: Option<A>)
        requires
            g.wf_links(),
            g@.has_dart(k@),
        ensures
            final(self).mask() == old(self).mask(),
            forall|e: usize|
                #![trigger final(self)@.contains_key(e)]
                g@.reaches(old(self).mask(), k@, e as int) ==> !final(self)@.contains_key(e),
            forall|e: usize|
                #![trigger final(self)@.contains_key(e)]
                #![trigger final(self)@[e]]
                !g@.reaches(old(self).mask(), k@, e as int) ==> (final(self)@.contains_key(e) == old(
                    self,
                )@.contains_key(e)) && (old(self)@.contains_key(e) ==> final(self)@[e] == old(
                    self,
                )@[e]),
            exists|xs: Seq<int>|
                #[trigger] g@.orbit_is(old(self).mask(), k@, xs) && r == first_held(old(self)@, xs),
            r is Some <==> exists|e: usize|
                g@.reaches(old(self).mask(), k@, e as int) && #[trigger] old(self)@.contains_key(e),
    {
        let ob = g.orbit(k, self.indices);
        let ghost xs = dart_seq(ob@);
        let mut found: Option<A> = None;
        let mut t: usize = 0;
        proof {
            assert(xs.take(0) =~= Seq::<int>::empty());
        }
        while t < ob.len()
            invariant
                t <= ob@.len(),
                xs == dart_seq(ob@),
                self.indices == old(self).indices,
                forall|m: int| 0 <= m < ob@.len() ==> g@.has_dart(#[trigger] ob@[m]@),
                forall|k1: int, k2: int| 0 <= k1 < k2 < ob@.len() ==> ob@[k1] != ob@[k2],
                found == first_held(old(self).map@, xs.take(t as int)),
                forall|e: usize|
                    #![trigger self.map@.contains_key(e)]
                    among(ob@, t as int, e) ==> !self.map@.contains_key(e),
                forall|e: usize|
                    #![trigger self.map@.contains_key(e)]
                    #![trigger self.map@[e]]
                    !among(ob@, t as int, e) ==> (self.map@.contains_key(e) == old(
                        self,
                    ).map@.contains_key(e)) && (old(self).map@.contains_key(e) ==> self.map@[e]
                        == old(self).map@[e]),
            decreases ob@.len() - t,
        {
            let e: Dart = ob[t];
            let ghost before = self.map@;
            proof {
                assert(!among(ob@, t as int, e.0)) by {
                    if among(ob@, t as int, e.0) {
                        let m = choose|m: int| 0 <= m < t && #[trigger] ob@[m].0 == e.0;
                        assert(ob@[m] != ob@[t as int]);
                    }
                }
                assert(before.contains_key(e.0) == old(self).map@.contains_key(e.0));
                assert(xs.take(t as int + 1).drop_last() =~= xs.take(t as int));
                assert(xs.take(t as int + 1).last() == e@);
            }
            let removed = self.map.remove(&e.0);
            if found.is_none() {
                found = removed;
            }
            proof {
                assert(self.map@ == before.remove(e.0));
                assert forall|x: usize| among(ob@, t as int + 1, x) <==> (among(ob@, t as int, x) || x
                    == e.0) by {
                    if among(ob@, t as int + 1, x) {
                        let m = choose|m: int| 0 <= m < t + 1 && #[trigger] ob@[m].0 == x;
                        if m < t {
                            assert(ob@[m].0 == x);
                        }
                    }
                    if among(ob@, t as int, x) {
                        let m = choose|m: int| 0 <= m < t && #[trigger] ob@[m].0 == x;
                        assert(ob@[m].0 == x);
                    }
                    if x == e.0 {
                        assert(ob@[t as int].0 == x);
                    }
                }
            }
            t += 1;
        }
        proof {
            assert(xs.take(t as int) =~= xs);
            lemma_first_held(old(self).map@, xs);
            assert forall|e: usize| among(ob@, ob@.len() as int, e) <==> g@.reaches(
                old(self).mask(),
                k@,
                e as int,
            ) by {
                if among(ob@, ob@.len() as int, e) {
                    let m = choose|m: int| 0 <= m < ob@.len() && #[trigger] ob@[m].0 == e;
                    assert(xs[m] == e as int);
                    assert(listed(xs, e as int));
                }
                if g@.reaches(old(self).mask(), k@, e as int) {
                    assert(listed(xs, e as int));
                    let m = choose|m: int| 0 <= m < xs.len() && #[trigger] xs[m] == e as int;
                    assert(ob@[m].0 == e);
                }
            }
            assert(g@.orbit_is(old(self).mask(), k@, xs) && found == first_held(old(self)@, xs));
            if found is Some {
                let m = choose|m: int|
                    0 <= m < xs.len() && old(self)@.contains_key(#[trigger] xs[m] as usize);
                assert(g@.has_dart(ob@[m]@));
                assert(listed(xs, xs[m]));
                assert(g@.reaches(old(self).mask(), k@, (xs[m] as usize) as int)
                    && old(self)@.contains_key(xs[m] as usize));
            }
            if exists|e: usize|
                g@.reaches(old(self).mask(), k@, e as int) && #[trigger] old(self)@.contains_key(e) {
                let e = choose|e: usize|
                    g@.reaches(old(self).mask(), k@, e as int) && #[trigger] old(self)@.contains_key(
                        e,
                    );
                assert(listed(xs, e as int));
                let m = choose|m: int| 0 <= m < xs.len() && #[trigger] xs[m] == e as int;
                assert(old(self)@.contains_key(xs[m] as usize));
            }
        }
        found
    }
}

/// For some masks, the least dart of the orbit of every dart: a quick test of
/// whether two darts share an orbit. A table is right only for the map it was
/// built from, as that map then was.
pub struct OrbitReprs(HashMap<u32, Vec<Dart>>);

impl OrbitReprs {
    /// Whether a table was built for `a`.
    pub closed spec fn has_table(&self, a: Alphas) -> bool {
        self.0@.contains_key(a.0)
    }

    /// The table built for `a`: entry `d` is the representative of dart `d`.
    pub closed spec fn table(&self, a: Alphas) -> Seq<Dart> {
        self.0@[a.0]@
    }

    /// Every table holds, for every dart of `g`, the least dart of its orbit.
    pub open spec fn fits(&self, g: GMapView) -> bool {
        forall|a: Alphas| #[trigger]
            self.has_table(a) ==> self.table(a).len() == g.ndarts() && forall|x: int|
                0 <= x < g.ndarts() ==> g.is_min_of(a, x, (#[trigger] self.table(a)[x])@)
    }

    pub fn new() -> (r: Self)
        ensures
            forall|a: Alphas| !r.has_table(a),
    {
        OrbitReprs(HashMap::new())
    }

    /// The representative of `d` in the table of `a`, if there is such a
    /// table.
    pub fn get(&self, a: Alphas, d: Dart) -> (r: Option<Dart>)
        requires
            self.has_table(a) ==> d@ < self.table(a).len(),
        ensures
            r == (if self.has_table(a) {
                Some(self.table(a)[d@])
            } else {
                None
            }),
    {
        match self.0.get(&a.0) {
            Some(v) => Some(v[d.0]),
            None => None,
        }
    }

    /// The least dart of the `a`-orbit of `d`: read from the table of `a`, or
    /// searched for in the orbit when there is no such table.
    pub fn get_or_search(&self, g: &GMap, a: Alphas, d: Dart) -> (r: Dart)
        requires
            g.wf_links(),
            g@.has_dart(d@),
            self.fits(g@),
        ensures
            g@.is_min_of(a, d@, r@),
    {
        match self.get(a, d) {
            Some(r) => r,
            None => least_of_orbit(g, a, d),
        }
    }

    /// The whole table of `a`, if there is one.
    pub fn get_all(&self, a: Alphas) -> (r: Option<&[Dart]>)
        ensures
            match r {
                Some(t) => self.has_table(a) && t@ == self.table(a),
                None => !self.has_table(a),
            },
    {
        match self.0.get(&a.0) {
            Some(v) => Some(v.as_slice()),
            None => None,
        }
    }

    /// Builds the table of `a` unless there is one, and returns a copy of it.
    pub fn ensure_all(&mut self, g: &GMap, a: Alphas) -> (r: Vec<Dart>)
        requires
            g.wf_links(),
            old(self).fits(g@),
        ensures
            final(self).fits(g@),
            final(self).has_table(a),
            r@ == final(self).table(a),
            forall|b: Alphas| b != a ==> (#[trigger] final(self).has_table(b) == old(self).has_table(b)),
            forall|b: Alphas| #[trigger]
                old(self).has_table(b) ==> final(self).table(b) == old(self).table(b),
    {
        if !self.0.contains_key(&a.0) {
            self.build(g, a);
        }
        let mut out: Vec<Dart> = Vec::new();
        match self.0.get(&a.0) {
            Some(v) => {
                let mut k: usize = 0;
                while k < v.len()
                    invariant
                        k <= v@.len(),
                        out@ == v@.take(k as int),
                    decreases v@.len() - k,
                {
                    out.push(v[k]);
                    proof {
                        assert(v@.take(k as int).push(v@[k as int]) =~= v@.take(k as int + 1));
                    }
                    k += 1;
                }
                proof {
                    assert(v@.take(k as int) =~= v@);
                }
            },
            None => {},
        }
        out
    }

    /// Builds the table of `a` for `g`, in place of the one there may be.
    pub fn build(&mut self, g: &GMap, a: Alphas)
        requires
            g.wf_links(),
            old(self).fits(g@),
        ensures
            final(self).fits(g@),
            final(self).has_table(a),
            forall|b: Alphas| b != a ==> (#[trigger] final(self).has_table(b) == old(self).has_table(b)),
            forall|b: Alphas|
                b != a && #[trigger] old(self).has_table(b) ==> final(self).table(b) == old(
                    self,
                ).table(b),
    {
        let n: usize = g.ndarts();
        let mut v: Vec<Dart> = Vec::new();
        let mut seen: Vec<bool> = all_false(n);
        let mut x: usize = 0;
        while x < n
            invariant
                x <= n,
                v@.len() == x,
            decreases n - x,
        {
            v.push(Dart(0));
            x += 1;
        }
        let mut d: usize = 0;
        while d < n
            invariant
                g.wf_links(),
                n == g@.ndarts(),
                d <= n,
                v@.len() == n,
                seen@.len() == n,
                forall|x: int| 0 <= x < n && #[trigger] seen@[x] ==> g@.is_min_of(a, x, v@[x]@),
                forall|x: int| 0 <= x < d ==> #[trigger] seen@[x],
                forall|x: int, y: int|
                    0 <= x < n && 0 <= y < n && seen@[x] && #[trigger] g@.reaches(a, x, y)
                        ==> seen@[y],
            decreases n - d,
        {
            if !seen[d] {
                let ob = g.orbit(Dart(d), a);
                let ghost xs = dart_seq(ob@);
                let ghost seen0 = seen@;
                let ghost v0 = v@;
                proof {
                    // no dart of this orbit was seen, so `d` is its least dart
                    assert forall|e: int| #[trigger] g@.reaches(a, d as int, e) implies d <= e
                        && !seen0[e] by {
                        g@.lemma_reaches_has_dart(a, d as int, e);
                        g@.lemma_reaches_sym(a, d as int, e);
                        if seen0[e] {
                            assert(g@.reaches(a, e, d as int));
                        }
                        if e < d {
                            assert(seen0[e]);
                        }
                    }
                    g@.lemma_reaches_refl(a, d as int);
                }
                let mut t: usize = 0;
                while t < ob.len()
                    invariant
                        g.wf_links(),
                        n == g@.ndarts(),
                        d < n,
                        t <= ob@.len(),
                        xs == dart_seq(ob@),
                        v@.len() == n,
                        seen@.len() == n,
                        seen0.len() == n,
                        forall|m: int| 0 <= m < ob@.len() ==> g@.has_dart(#[trigger] ob@[m]@),
                        forall|e: int| g@.reaches(a, d as int, e) <==> listed(xs, e),
                        g@.reaches(a, d as int, d as int),
                        forall|e: int| #[trigger] g@.reaches(a, d as int, e) ==> d <= e && !seen0[e],
                        forall|y: int|
                            0 <= y < n ==> (#[trigger] seen@[y] <==> (seen0[y] || exists|m: int|
                                0 <= m < t && #[trigger] xs[m] == y)),
                        forall|y: int| 0 <= y < n && seen0[y] ==> v@[y] == #[trigger] v0[y],
                        forall|m: int| 0 <= m < t ==> v@[#[trigger] xs[m]]@ == d,
                    decreases ob@.len() - t,
                {
                    let e: Dart = ob[t];
                    let ghost prev = seen@;
                    let ghost prev_v = v@;
                    proof {
                        assert(g@.has_dart(ob@[t as int]@));
                        assert(xs[t as int] == e@);
                        assert(listed(xs, xs[t as int]));
                        assert(g@.reaches(a, d as int, e@));
                    }
                    seen.set(e.0, true);
                    v.set(e.0, Dart(d));
                    proof {
                        assert forall|y: int| 0 <= y < n implies (#[trigger] seen@[y] <==> (seen0[y]
                            || exists|m: int| 0 <= m < t + 1 && #[trigger] xs[m] == y)) by {
                            if y == e@ {
                                assert(xs[t as int] == y);
                            } else {
                                assert(seen@[y] == prev[y]);
                                if prev[y] && !seen0[y] {
                                    let m = choose|m: int| 0 <= m < t && #[trigger] xs[m] == y;
                                    assert(xs[m] == y);
                                }
                                if exists|m: int| 0 <= m < t + 1 && #[trigger] xs[m] == y {
                                    let m = choose|m: int| 0 <= m < t + 1 && #[trigger] xs[m] == y;
                                    assert(m < t);
                                    assert(xs[m] == y);
                                }
                            }
                        }
                        assert forall|m: int| 0 <= m < t + 1 implies v@[#[trigger] xs[m]]@ == d by {
                            if m < t {
                                assert(prev_v[xs[m]]@ == d);
                            }
                        }
                    }
                    t += 1;
                }
                proof {
                    assert forall|x: int| 0 <= x < n && #[trigger] seen@[x] implies g@.is_min_of(
                        a,
                        x,
                        v@[x]@,
                    ) by {
                        if seen0[x] {
                            assert(v@[x] == v0[x]);
                        } else {
                            let m = choose|m: int| 0 <= m < ob@.len() && #[trigger] xs[m] == x;
                            assert(listed(xs, x));
                            assert(v@[xs[m]]@ == d);
                            g@.lemma_reaches_sym(a, d as int, x);
                            assert forall|e: int| #[trigger] g@.reaches(a, x, e) implies d <= e by {
                                g@.lemma_reaches_trans(a, d as int, x, e);
                            }
                        }
                    }
                    assert forall|x: int, y: int|
                        0 <= x < n && 0 <= y < n && seen@[x] && #[trigger] g@.reaches(
                            a,
                            x,
                            y,
                        ) implies seen@[y] by {
                        if !seen0[x] {
                            let m = choose|m: int| 0 <= m < ob@.len() && #[trigger] xs[m] == x;
                            assert(listed(xs, x));
                            g@.lemma_reaches_trans(a, d as int, x, y);
                            assert(listed(xs, y));
                            let m2 = choose|m2: int| 0 <= m2 < xs.len() && #[trigger] xs[m2] == y;
                            assert(xs[m2] == y);
                        }
                    }
                    assert(listed(xs, d as int));
                    let m = choose|m: int| 0 <= m < xs.len() && #[trigger] xs[m] == d as int;
                    assert(xs[m] == d as int);
                }
            }
            d += 1;
        }
        let ghost before = self.0@;
        let ghost final_v = v@;
        let ghost final_seen = seen@;
        self.0.insert(a.0, v);
        proof {
            assert forall|b: Alphas| #[trigger]
                self.has_table(b) implies self.table(b).len() == g@.ndarts() && forall|x: int|
                0 <= x < g@.ndarts() ==> g@.is_min_of(b, x, (#[trigger] self.table(b)[x])@) by {
                if b.0 != a.0 {
                    assert(before.contains_key(b.0));
                    assert(old(self).has_table(b));
                    assert(self.table(b) == old(self).table(b));
                    assert(old(self).table(b).len() == g@.ndarts());
                    assert forall|x: int| 0 <= x < g@.ndarts() implies g@.is_min_of(
                        b,
                        x,
                        (#[trigger] self.table(b)[x])@,
                    ) by {
                        assert(g@.is_min_of(b, x, old(self).table(b)[x]@));
                    }
                } else {
                    assert(b == a);
                    assert(self.table(b) == final_v);
                    assert forall|x: int| 0 <= x < g@.ndarts() implies g@.is_min_of(
                        b,
                        x,
                        (#[trigger] self.table(b)[x])@,
                    ) by {
                        assert(final_seen[x]);
                    }
                }
            }
        }
    }

    /// The representatives of the `a`-orbits that meet the `b`-orbit of `d`,
    /// each once, in the order in which the enumeration of that `b`-orbit
    /// first meets them.
    pub fn orbit_repr_per_incident_orbit(&self, g: &GMap, d: Dart, a: Alphas, b: Alphas) -> (r:
        Vec<Dart>)
        requires
            g.wf_links(),
            g@.has_dart(d@),
            self.fits(g@),
        ensures
            exists|ob: Seq<int>|
                #[trigger] g@.orbit_is(b, d@, ob) && r@.len() == g@.firsts(a, ob).len()
                    && forall|k: int|
                    0 <= k < r@.len() ==> g@.is_min_of(a, g@.firsts(a, ob)[k], (#[trigger] r@[k])@),
            forall|k: int| 0 <= k < r@.len() ==> g@.has_dart(#[trigger] r@[k]@),
    {
        let firsts = g.one_dart_per_incident_orbit(d, a, b);
        let ghost ob = choose|ob: Seq<int>|
            #[trigger] g@.orbit_is(b, d@, ob) && dart_seq(firsts@) == g@.firsts(a, ob);
        let mut out: Vec<Dart> = Vec::new();
        let mut k: usize = 0;
        while k < firsts.len()
            invariant
                g.wf_links(),
                self.fits(g@),
                k <= firsts@.len(),
                out@.len() == k,
                forall|m: int| 0 <= m < firsts@.len() ==> g@.has_dart(#[trigger] firsts@[m]@),
                forall|m: int|
                    0 <= m < k ==> g@.is_min_of(a, firsts@[m]@, (#[trigger] out@[m])@) && g@.has_dart(
                        out@[m]@,
                    ),
            decreases firsts@.len() - k,
        {
            let x: Dart = firsts[k];
            proof {
                assert(g@.has_dart(firsts@[k as int]@));
            }
            let rep = self.get_or_search(g, a, x);
            proof {
                g@.lemma_reaches_has_dart(a, x@, rep@);
            }
            out.push(rep);
            k += 1;
        }
        proof {
            assert(g@.orbit_is(b, d@, ob) && out@.len() == g@.firsts(a, ob).len()
                && forall|m: int|
                0 <= m < out@.len() ==> g@.is_min_of(a, g@.firsts(a, ob)[m], (#[trigger] out@[m])@)) by {
                assert forall|m: int| 0 <= m < out@.len() implies g@.is_min_of(
                    a,
                    g@.firsts(a, ob)[m],
                    (#[trigger] out@[m])@,
                ) by {
                    assert(dart_seq(firsts@)[m] == firsts@[m]@);
                }
            }
        }
        out
    }
}

/// The least dart of the `a`-orbit of `d`, found by enumerating the orbit.
fn least_of_orbit(g: &GMap, a: Alphas, d: Dart) -> (r: Dart)
    requires
        g.wf_links(),
        g@.has_dart(d@),
    ensures
        g@.is_min_of(a, d@, r@),
{
    let ob = g.orbit(d, a);
    let ghost xs = dart_seq(ob@);
    let mut best: Dart = ob[0];
    let mut t: usize = 1;
    proof {
        assert(xs[0] == ob@[0]@);
    }
    while t < ob.len()
        invariant
            1 <= t <= ob@.len(),
            xs == dart_seq(ob@),
            listed(xs, best@),
            forall|m: int| 0 <= m < t ==> best@ <= #[trigger] xs[m],
        decreases ob@.len() - t,
    {
        if ob[t].0 < best.0 {
            best = ob[t];
            proof {
                assert(xs[t as int] == best@);
            }
        }
        t += 1;
    }
    proof {
        assert forall|e: int| #[trigger] g@.reaches(a, d@, e) implies best@ <= e by {
            assert(listed(xs, e));
            let m = choose|m: int| 0 <= m < xs.len() && #[trigger] xs[m] == e;
            assert(best@ <= xs[m]);
        }
    }
    best
}

} // verus!
