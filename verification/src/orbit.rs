//! The orbit engine: enumeration of the orbit of a dart under a set of
//! involutions, cycles of a composite involution, and one dart per orbit.

use crate::dart::{Alphas, Dart, GMapError};
use crate::finite::lemma_distinct_bounded;
use crate::gmap::{ints, GMap};
use crate::listing::{covered, listed};
use crate::model::GMapView;
use crate::shortlex::{
    lemma_shortlex_extend, lemma_shortlex_push, lemma_shortlex_push_same,
    lemma_shortlex_transitive, shortlex_le, shortlex_lt,
};
use vstd::prelude::*;

verus! {

/// The paths of an orbit listing, as sequences of integers.
pub open spec fn listing_paths(l: Seq<(Vec<usize>, Dart)>) -> Seq<Seq<int>> {
    Seq::new(l.len(), |k: int| ints(l[k].0@))
}

/// The darts of an orbit listing, as integers.
pub open spec fn listing_darts(l: Seq<(Vec<usize>, Dart)>) -> Seq<int> {
    Seq::new(l.len(), |k: int| l[k].1@)
}

/// The darts of a list, as integers.
pub open spec fn dart_seq(l: Seq<Dart>) -> Seq<int> {
    Seq::new(l.len(), |k: int| l[k]@)
}

/// A vector of `n` copies of `false`.
pub(crate) fn all_false(n: usize) -> (v: Vec<bool>)
    ensures
        v@.len() == n,
        forall|k: int| 0 <= k < n ==> !v@[k],
{
    let mut v: Vec<bool> = Vec::new();
    let mut k: usize = 0;
    while k < n
        invariant
            k <= n,
            v@.len() == k,
            forall|x: int| 0 <= x < k ==> !v@[x],
        decreases n - k,
    {
        v.push(false);
        k += 1;
    }
    v
}

/// A copy of a path with one more index at its end.
fn extended(p: &Vec<usize>, i: usize) -> (r: Vec<usize>)
    ensures
        r@ == p@.push(i),
{
    let mut r: Vec<usize> = Vec::new();
    let mut k: usize = 0;
    while k < p.len()
        invariant
            k <= p@.len(),
            r@ == p@.take(k as int),
        decreases p@.len() - k,
    {
        r.push(p[k]);
        proof {
            assert(p@.take(k as int).push(p@[k as int]) =~= p@.take(k as int + 1));
        }
        k += 1;
    }
    proof {
        assert(p@.take(k as int) =~= p@);
    }
    r.push(i);
    r
}

/// What the breadth-first enumeration keeps between two darts of its queue.
/// `head` darts have had their images enumerated; of the dart at `head`, the
/// images under the indices below `i` have.
spec fn bfs_inv(
    g: GMapView,
    a: Alphas,
    d: int,
    paths: Seq<Seq<int>>,
    darts: Seq<int>,
    parent: Seq<int>,
    seen: Seq<bool>,
    head: int,
    i: int,
) -> bool {
    &&& paths.len() == darts.len()
    &&& parent.len() == darts.len()
    &&& seen.len() == g.ndarts()
    &&& 0 <= head < darts.len()
    &&& 0 <= i <= g.dimension + 1
    &&& darts[0] == d
    &&& paths[0] == Seq::<int>::empty()
    &&& forall|k: int|
        0 <= k < darts.len() ==> g.path_in(a, #[trigger] paths[k]) && g.walk(d, paths[k])
            == darts[k] && g.has_dart(darts[k])
    &&& forall|k1: int, k2: int|
        0 <= k1 < k2 < darts.len() ==> #[trigger] darts[k1] != #[trigger] darts[k2]
    &&& forall|x: int| 0 <= x < seen.len() ==> (#[trigger] seen[x] <==> listed(darts, x))
    &&& forall|k1: int, k2: int|
        0 <= k1 < k2 < darts.len() ==> #[trigger] shortlex_lt(paths[k1], paths[k2])
    &&& forall|k: int|
        1 <= k < darts.len() ==> 0 <= #[trigger] parent[k] <= head && paths[k].len() > 0
            && paths[k].drop_last() == paths[parent[k]] && (parent[k] == head ==> paths[k].last()
            < i)
    &&& forall|m: int, j: int|
        0 <= m < darts.len() && g.has_index(j) && a.contains(j) && (m < head || (m == head && j
            < i)) ==> covered(paths, darts, #[trigger] g.al(darts[m], j), paths[m].push(j))
    &&& forall|k: int|
        0 <= k < darts.len() ==> #[trigger] shortlex_lt(paths[k], paths[head].push(i))
}

/// Every path listed so far comes before the first extension of the path at
/// `head`, when no dart has `head` for its parent yet.
proof fn lemma_bfs_bound(paths: Seq<Seq<int>>, parent: Seq<int>, head: int)
    requires
        paths.len() == parent.len(),
        0 <= head < paths.len(),
        forall|k1: int, k2: int|
            0 <= k1 < k2 < paths.len() ==> #[trigger] shortlex_lt(paths[k1], paths[k2]),
        forall|k: int|
            1 <= k < paths.len() ==> 0 <= #[trigger] parent[k] < head && paths[k].len() > 0
                && paths[k].drop_last() == paths[parent[k]],
    ensures
        forall|k: int| 0 <= k < paths.len() ==> #[trigger] shortlex_lt(paths[k], paths[head].push(0)),
{
    let p = paths[head];
    assert forall|k: int| 0 <= k < paths.len() implies #[trigger] shortlex_lt(
        paths[k],
        paths[head].push(0),
    ) by {
        lemma_shortlex_extend(p, 0);
        if k < head {
            assert(shortlex_lt(paths[k], paths[head]));
            lemma_shortlex_transitive(paths[k], p, p.push(0));
        } else if k > head {
            let m = parent[k];
            assert(shortlex_lt(paths[m], paths[head]));
            lemma_shortlex_push(paths[m], p, paths[k].last(), 0);
            assert(paths[k] =~= paths[m].push(paths[k].last()));
        }
    }
}

/// Moving to the next index keeps the bound on the listed paths.
proof fn lemma_bfs_bound_next(paths: Seq<Seq<int>>, p: Seq<int>, i: int)
    requires
        forall|k: int| 0 <= k < paths.len() ==> #[trigger] shortlex_lt(paths[k], p.push(i)),
    ensures
        forall|k: int| 0 <= k < paths.len() ==> #[trigger] shortlex_lt(paths[k], p.push(i + 1)),
{
    lemma_shortlex_push_same(p, i, i + 1);
    assert forall|k: int| 0 <= k < paths.len() implies #[trigger] shortlex_lt(
        paths[k],
        p.push(i + 1),
    ) by {
        assert(shortlex_lt(paths[k], p.push(i)));
        lemma_shortlex_transitive(paths[k], p.push(i), p.push(i + 1));
    }
}

impl GMap {
    /// Enumerates the `a`-orbit of `d` breadth first, trying the involutions
    /// in increasing order. Each dart comes with the path of indices by which
    /// it was first reached from `d`.
    pub fn orbit_paths(&self, d: Dart, a: Alphas) -> (r: Vec<(Vec<usize>, Dart)>)
        requires
            self.wf_links(),
            self@.has_dart(d@),
        ensures
            self@.lists_orbit(a, d@, listing_paths(r@), listing_darts(r@)),
            r@.len() <= self@.ndarts(),
            forall|k: int| 0 <= k < r@.len() ==> self@.has_dart(#[trigger] r@[k].1@),
    {
        let n: usize = self.ndarts();
        let dim: usize = self.dimension();
        let g = Ghost(self@);
        let mut seen: Vec<bool> = all_false(n);
        let mut queue: Vec<(Vec<usize>, Dart)> = Vec::new();
        seen.set(d.0, true);
        queue.push((Vec::new(), d));
        let ghost mut paths: Seq<Seq<int>> = seq![Seq::<int>::empty()];
        let ghost mut darts: Seq<int> = seq![d@];
        let ghost mut parent: Seq<int> = seq![-1int];
        let mut head: usize = 0;
        proof {
            assert(listing_paths(queue@) =~= paths) by {
                assert(ints(queue@[0].0@) =~= Seq::<int>::empty());
            }
            assert(listing_darts(queue@) =~= darts);
            assert forall|x: int| 0 <= x < seen@.len() implies (#[trigger] seen@[x] <==> listed(
                darts,
                x,
            )) by {
                if x == d@ {
                    assert(darts[0] == x);
                }
            }
            assert(g@.path_in(a, paths[0]));
        }
        while head < queue.len()
            invariant
                self.wf_links(),
                g@ == self@,
                n == g@.ndarts(),
                dim == g@.dimension,
                g@.has_dart(d@),
                paths == listing_paths(queue@),
                darts == listing_darts(queue@),
                paths.len() == darts.len(),
                parent.len() == darts.len(),
                seen@.len() == n,
                0 <= head <= darts.len(),
                darts.len() >= 1,
                darts[0] == d@,
                paths[0] == Seq::<int>::empty(),
                forall|k: int|
                    0 <= k < darts.len() ==> g@.path_in(a, #[trigger] paths[k]) && g@.walk(
                        d@,
                        paths[k],
                    ) == darts[k] && g@.has_dart(darts[k]),
                forall|k1: int, k2: int|
                    0 <= k1 < k2 < darts.len() ==> #[trigger] darts[k1] != #[trigger] darts[k2],
                forall|x: int| 0 <= x < seen@.len() ==> (#[trigger] seen@[x] <==> listed(darts, x)),
                forall|k1: int, k2: int|
                    0 <= k1 < k2 < darts.len() ==> #[trigger] shortlex_lt(paths[k1], paths[k2]),
                forall|k: int|
                    1 <= k < darts.len() ==> 0 <= #[trigger] parent[k] < head && paths[k].len() > 0
                        && paths[k].drop_last() == paths[parent[k]],
                forall|m: int, j: int|
                    0 <= m < head && g@.has_index(j) && a.contains(j) ==> covered(
                        paths,
                        darts,
                        #[trigger] g@.al(darts[m], j),
                        paths[m].push(j),
                    ),
            decreases n - head,
        {
            proof {
                assert forall|k: int| 0 <= k < darts.len() implies 0 <= #[trigger] darts[k] < n by {
                    assert(g@.path_in(a, paths[k]));
                }
                lemma_distinct_bounded(darts, n as int);
                lemma_bfs_bound(paths, parent, head as int);
            }
            let x: Dart = queue[head].1;
            let mut i: usize = 0;
            while i <= dim
                invariant
                    self.wf_links(),
                    g@ == self@,
                    n == g@.ndarts(),
                    dim == g@.dimension,
                    g@.has_dart(d@),
                    paths == listing_paths(queue@),
                    darts == listing_darts(queue@),
                    head < queue@.len(),
                    x@ == darts[head as int],
                    seen@.len() == n,
                    bfs_inv(g@, a, d@, paths, darts, parent, seen@, head as int, i as int),
                decreases dim + 1 - i,
            {
                let ghost p = paths[head as int];
                proof {
                    lemma_bfs_bound_next(paths, p, i as int);
                }
                if a.has(i) {
                    let nb: Dart = self.al1(x, i);
                    if !seen[nb.0] {
                        let np: Vec<usize> = extended(&queue[head].0, i);
                        let ghost old_paths = paths;
                        let ghost old_darts = darts;
                        let ghost old_queue = queue@;
                        let ghost old_seen = seen@;
                        seen.set(nb.0, true);
                        queue.push((np, nb));
                        proof {
                            let q = p.push(i as int);
                            assert(ints(np@) =~= q) by {
                                assert(ints(old_queue[head as int].0@) == p);
                            }
                            paths = old_paths.push(q);
                            darts = old_darts.push(nb@);
                            parent = parent.push(head as int);
                            assert(listing_paths(queue@) =~= paths);
                            assert(listing_darts(queue@) =~= darts);
                            let last = old_darts.len() as int;
                            g@.lemma_path_in_push(a, p, i as int);
                            g@.lemma_walk_push(d@, p, i as int);
                            assert(!listed(old_darts, nb@));
                            assert forall|k1: int, k2: int| 0 <= k1 < k2 < darts.len() implies #[trigger] darts[k1]
                                != #[trigger] darts[k2] by {
                                if k2 == last {
                                    assert(old_darts[k1] == darts[k1]);
                                } else {
                                    assert(old_darts[k1] != old_darts[k2]);
                                }
                            }
                            assert forall|y: int| 0 <= y < seen@.len() implies (#[trigger] seen@[y]
                                <==> listed(darts, y)) by {
                                if y == nb@ {
                                    assert(darts[last] == y);
                                } else {
                                    assert(seen@[y] == old_seen[y]);
                                    if listed(old_darts, y) {
                                        let k = choose|k: int|
                                            0 <= k < old_darts.len() && #[trigger] old_darts[k]
                                                == y;
                                        assert(darts[k] == y);
                                    }
                                    if listed(darts, y) {
                                        let k = choose|k: int|
                                            0 <= k < darts.len() && #[trigger] darts[k] == y;
                                        assert(old_darts[k] == y);
                                    }
                                }
                            }
                            assert forall|k1: int, k2: int|
                                0 <= k1 < k2 < darts.len() implies #[trigger] shortlex_lt(
                                paths[k1],
                                paths[k2],
                            ) by {
                                if k2 == last {
                                    assert(shortlex_lt(old_paths[k1], p.push(i as int)));
                                } else {
                                    assert(shortlex_lt(old_paths[k1], old_paths[k2]));
                                }
                            }
                            assert forall|k: int| 1 <= k < darts.len() implies 0 <= #[trigger] parent[k]
                                <= head && paths[k].len() > 0 && paths[k].drop_last()
                                == paths[parent[k]] && (parent[k] == head ==> paths[k].last() < i
                                + 1) by {
                                if k == last {
                                    assert(q.drop_last() =~= p);
                                }
                            }
                            assert forall|m: int, j: int|
                                0 <= m < darts.len() && g@.has_index(j) && a.contains(j) && (m
                                    < head || (m == head && j < i + 1)) implies covered(
                                paths,
                                darts,
                                #[trigger] g@.al(darts[m], j),
                                paths[m].push(j),
                            ) by {
                                if m == head && j == i {
                                    assert(darts[last] == g@.al(darts[m], j) && shortlex_le(
                                        paths[last],
                                        paths[m].push(j),
                                    ));
                                } else {
                                    assert(covered(
                                        old_paths,
                                        old_darts,
                                        g@.al(old_darts[m], j),
                                        old_paths[m].push(j),
                                    ));
                                    let k = choose|k: int|
                                        0 <= k < old_darts.len() && #[trigger] old_darts[k]
                                            == g@.al(old_darts[m], j) && shortlex_le(
                                            old_paths[k],
                                            old_paths[m].push(j),
                                        );
                                    assert(darts[k] == g@.al(darts[m], j) && shortlex_le(
                                        paths[k],
                                        paths[m].push(j),
                                    ));
                                }
                            }
                            assert forall|k: int| 0 <= k < darts.len() implies #[trigger] shortlex_lt(
                                paths[k],
                                paths[head as int].push(i + 1),
                            ) by {
                                if k == last {
                                    lemma_shortlex_push_same(p, i as int, i + 1);
                                } else {
                                    assert(shortlex_lt(old_paths[k], p.push(i + 1)));
                                }
                            }
                            assert forall|k: int| 0 <= k < darts.len() implies g@.path_in(
                                a,
                                #[trigger] paths[k],
                            ) && g@.walk(d@, paths[k]) == darts[k] && g@.has_dart(darts[k]) by {
                                if k < last {
                                    assert(g@.path_in(a, old_paths[k]));
                                }
                            }
                        }
                    } else {
                        proof {
                            let k = choose|k: int| 0 <= k < darts.len() && #[trigger] darts[k] == nb@;
                            assert(shortlex_lt(paths[k], p.push(i as int)));
                            assert(darts[k] == g@.al(darts[head as int], i as int) && shortlex_le(
                                paths[k],
                                paths[head as int].push(i as int),
                            ));
                        }
                    }
                }
                i += 1;
            }
            head += 1;
        }
        proof {
            assert forall|k: int| 0 <= k < darts.len() implies 0 <= #[trigger] darts[k] < n by {
                assert(g@.path_in(a, paths[k]));
            }
            lemma_distinct_bounded(darts, n as int);
            assert forall|q: Seq<int>| g@.path_in(a, q) implies #[trigger] covered(
                paths,
                darts,
                g@.walk(d@, q),
                q,
            ) by {
                g@.lemma_closed_covers(a, d@, paths, darts, q);
            }
            assert forall|k: int| 0 <= k < queue@.len() implies self@.has_dart(
                #[trigger] queue@[k].1@,
            ) by {
                assert(0 <= darts[k] < n);
            }
        }
        queue
    }
}

} // verus!

verus! {

impl GMapView {
    /// `darts` is the enumeration of the `a`-orbit of `d`.
    pub open spec fn orbit_is(self, a: Alphas, d: int, darts: Seq<int>) -> bool {
        exists|paths: Seq<Seq<int>>| #[trigger] self.lists_orbit(a, d, paths, darts)
    }

    /// Some dart of `l` before position `k` has `x` in its `a`-orbit.
    pub open spec fn seen_before(self, a: Alphas, l: Seq<int>, k: int, x: int) -> bool {
        exists|m: int| 0 <= m < k && self.reaches(a, #[trigger] l[m], x)
    }

    /// The darts of `l` that are the first of their `a`-orbit in `l`, in the
    /// order of `l`.
    pub open spec fn firsts(self, a: Alphas, l: Seq<int>) -> Seq<int>
        decreases l.len(),
    {
        if l.len() == 0 {
            Seq::empty()
        } else {
            let r = self.firsts(a, l.drop_last());
            if self.seen_before(a, l, l.len() - 1, l.last()) {
                r
            } else {
                r.push(l.last())
            }
        }
    }

    /// The first dart of every `a`-orbit that the enumeration of the
    /// `b`-orbit of `d` meets, in the order in which it meets them.
    pub open spec fn incident(self, a: Alphas, b: Alphas, d: int) -> Seq<int> {
        self.firsts(a, self.orbit_list(b, d))
    }

    /// The composite involution of a path, as a function on darts.
    pub open spec fn walk_fn(self, p: Seq<int>) -> spec_fn(int) -> int {
        |x: int| self.walk(x, p)
    }

    /// The enumeration of an orbit holds the darts of the orbit, each once,
    /// and starts with the dart itself.
    pub proof fn lemma_orbit_is(self, a: Alphas, d: int, darts: Seq<int>)
        requires
            self.shaped(),
            self.has_dart(d),
            self.orbit_is(a, d, darts),
        ensures
            darts.len() >= 1,
            darts[0] == d,
            forall|e: int| self.reaches(a, d, e) <==> listed(darts, e),
            forall|k: int| 0 <= k < darts.len() ==> self.has_dart(#[trigger] darts[k]),
            forall|k1: int, k2: int|
                0 <= k1 < k2 < darts.len() ==> #[trigger] darts[k1] != #[trigger] darts[k2],
    {
        let paths = choose|paths: Seq<Seq<int>>| #[trigger] self.lists_orbit(a, d, paths, darts);
        self.lemma_listing_first(a, d, paths, darts);
        assert forall|e: int| self.reaches(a, d, e) <==> listed(darts, e) by {
            self.lemma_listing_darts(a, d, paths, darts, e);
        }
        assert forall|k: int| 0 <= k < darts.len() implies self.has_dart(#[trigger] darts[k]) by {
            self.lemma_listing_has_dart(a, d, paths, darts, k);
        }
    }

    /// The enumeration of an orbit is determined by the map, the mask and the
    /// dart.
    pub proof fn lemma_orbit_deterministic(
        self,
        a: Alphas,
        d: int,
        darts1: Seq<int>,
        darts2: Seq<int>,
    )
        requires
            self.orbit_is(a, d, darts1),
            self.orbit_is(a, d, darts2),
        ensures
            darts1 == darts2,
    {
        let p1 = choose|paths: Seq<Seq<int>>| #[trigger] self.lists_orbit(a, d, paths, darts1);
        let p2 = choose|paths: Seq<Seq<int>>| #[trigger] self.lists_orbit(a, d, paths, darts2);
        self.lemma_listing_unique(a, d, p1, darts1, p2, darts2);
    }

    /// Which darts `firsts` keeps: those with no dart of their orbit before
    /// them.
    pub proof fn lemma_firsts_member(self, a: Alphas, l: Seq<int>, x: int)
        ensures
            listed(self.firsts(a, l), x) <==> exists|k: int|
                0 <= k < l.len() && #[trigger] l[k] == x && !self.seen_before(a, l, k, x),
        decreases l.len(),
    {
        let f = self.firsts(a, l);
        if l.len() > 0 {
            let l0 = l.drop_last();
            let f0 = self.firsts(a, l0);
            let last = l.len() - 1;
            self.lemma_firsts_member(a, l0, x);
            assert forall|k: int| 0 <= k <= last implies (self.seen_before(a, l0, k, x)
                <==> self.seen_before(a, l, k, x)) by {
                if self.seen_before(a, l0, k, x) {
                    let m = choose|m: int| 0 <= m < k && self.reaches(a, #[trigger] l0[m], x);
                    assert(self.reaches(a, l[m], x));
                }
                if self.seen_before(a, l, k, x) {
                    let m = choose|m: int| 0 <= m < k && self.reaches(a, #[trigger] l[m], x);
                    assert(self.reaches(a, l0[m], x));
                }
            }
            if listed(f, x) {
                let t = choose|t: int| 0 <= t < f.len() && #[trigger] f[t] == x;
                if t < f0.len() {
                    assert(f0[t] == x);
                    assert(listed(f0, x));
                    let k = choose|k: int|
                        0 <= k < l0.len() && #[trigger] l0[k] == x && !self.seen_before(a, l0, k, x);
                    assert(l[k] == x && !self.seen_before(a, l, k, x));
                } else {
                    assert(l[last] == x && !self.seen_before(a, l, last, x));
                }
            }
            if exists|k: int| 0 <= k < l.len() && #[trigger] l[k] == x && !self.seen_before(a, l, k, x) {
                let k = choose|k: int|
                    0 <= k < l.len() && #[trigger] l[k] == x && !self.seen_before(a, l, k, x);
                if k < last {
                    assert(l0[k] == x && !self.seen_before(a, l0, k, x));
                    let t = choose|t: int| 0 <= t < f0.len() && #[trigger] f0[t] == x;
                    assert(f[t] == x);
                } else {
                    assert(f[f.len() - 1] == x);
                }
            }
        }
    }

    /// `firsts` of a strictly increasing list is strictly increasing, and
    /// holds darts of the list only.
    pub proof fn lemma_firsts_increasing(self, a: Alphas, l: Seq<int>)
        requires
            forall|k1: int, k2: int| 0 <= k1 < k2 < l.len() ==> #[trigger] l[k1] < #[trigger] l[k2],
        ensures
            forall|k1: int, k2: int|
                0 <= k1 < k2 < self.firsts(a, l).len() ==> #[trigger] self.firsts(a, l)[k1]
                    < #[trigger] self.firsts(a, l)[k2],
            forall|t: int|
                0 <= t < self.firsts(a, l).len() ==> listed(l, #[trigger] self.firsts(a, l)[t]),
            self.firsts(a, l).len() <= l.len(),
        decreases l.len(),
    {
        let f = self.firsts(a, l);
        if l.len() > 0 {
            let l0 = l.drop_last();
            let f0 = self.firsts(a, l0);
            self.lemma_firsts_increasing(a, l0);
            assert forall|t: int| 0 <= t < f.len() implies listed(l, #[trigger] f[t]) by {
                if t < f0.len() {
                    assert(listed(l0, f0[t]));
                    let k = choose|k: int| 0 <= k < l0.len() && #[trigger] l0[k] == f0[t];
                    assert(l[k] == f[t]);
                } else {
                    assert(l[l.len() - 1] == f[t]);
                }
            }
            assert forall|k1: int, k2: int| 0 <= k1 < k2 < f.len() implies #[trigger] f[k1]
                < #[trigger] f[k2] by {
                if k2 < f0.len() {
                    assert(f0[k1] < f0[k2]);
                } else {
                    assert(listed(l0, f0[k1]));
                    let k = choose|k: int| 0 <= k < l0.len() && #[trigger] l0[k] == f0[k1];
                    assert(l[k] < l[l.len() - 1]);
                }
            }
        }
    }

    /// Walking a path is one to one.
    pub proof fn lemma_walk_injective(self, a: Alphas, x: int, y: int, p: Seq<int>)
        requires
            self.shaped(),
            self.involutive(),
            self.has_dart(x),
            self.has_dart(y),
            self.path_in(a, p),
            self.walk(x, p) == self.walk(y, p),
        ensures
            x == y,
        decreases p.len(),
    {
        if p.len() > 0 {
            self.lemma_path_in_drop_last(a, p);
            let q = p.drop_last();
            self.lemma_walk_has_dart(a, x, q);
            self.lemma_walk_has_dart(a, y, q);
            let x1 = self.walk(x, q);
            let y1 = self.walk(y, q);
            assert(self.al(self.al(x1, p.last()), p.last()) == x1);
            assert(self.al(self.al(y1, p.last()), p.last()) == y1);
            self.lemma_walk_injective(a, x, y, q);
        }
    }

    /// The composite involution of a path permutes the darts.
    pub proof fn lemma_walk_permutes(self, a: Alphas, p: Seq<int>)
        requires
            self.shaped(),
            self.involutive(),
            self.path_in(a, p),
        ensures
            crate::finite::permutes(self.walk_fn(p), self.ndarts()),
    {
        let f = self.walk_fn(p);
        assert forall|x: int| 0 <= x < self.ndarts() implies 0 <= #[trigger] f(x) < self.ndarts() by {
            self.lemma_walk_has_dart(a, x, p);
        }
        assert forall|x: int, y: int|
            0 <= x < self.ndarts() && 0 <= y < self.ndarts() && #[trigger] f(x) == #[trigger] f(
                y,
            ) implies x == y by {
            self.lemma_walk_injective(a, x, y, p);
        }
    }
}

} // verus!

verus! {

impl GMapView {
    /// The map with the whole component of `d` deleted.
    pub open spec fn deleting(self, d: int) -> GMapView {
        GMapView {
            dimension: self.dimension,
            alpha: self.alpha,
            deleted: Seq::new(
                self.deleted.len(),
                |x: int| self.deleted[x] || self.reaches(Alphas::all(), d, x),
            ),
        }
    }

    /// Deleting a component keeps a map valid.
    pub proof fn lemma_deleting_valid(self, d: int)
        requires
            self.valid(),
            self.has_dart(d),
        ensures
            self.deleting(d).valid(),
    {
        let g = self.deleting(d);
        let all = Alphas::all();
        Alphas::lemma_named_masks();
        assert forall|x: int, k: int| g.has_dart(x) && g.has_index(k) implies #[trigger] g.al(x, k)
            == self.al(x, k) by {}
        assert(g.shaped()) by {
            assert forall|x: int, k: int| g.has_dart(x) && g.has_index(k) implies g.has_dart(
                #[trigger] g.al(x, k),
            ) by {
                assert(self.has_dart(self.al(x, k)));
            }
        }
        assert(g.involutive()) by {
            assert forall|x: int, k: int| g.has_dart(x) && g.has_index(k) implies g.al(
                #[trigger] g.al(x, k),
                k,
            ) == x by {
                assert(self.al(self.al(x, k), k) == x);
            }
        }
        assert(g.commuting()) by {
            assert forall|x: int, i: int, j: int|
                #![trigger g.al(g.al(x, i), j)]
                #![trigger g.al(g.al(x, j), i)]
                g.has_dart(x) && 0 <= i && i + 2 <= j <= g.dimension implies g.al(g.al(x, i), j)
                == g.al(g.al(x, j), i) by {
                assert(self.al(self.al(x, i), j) == self.al(self.al(x, j), i));
            }
        }
        assert forall|x: int, k: int| g.has_dart(x) && g.has_index(k) implies g.deleted[#[trigger] g.al(
            x,
            k,
        )] == g.deleted[x] by {
            let y = self.al(x, k);
            assert(self.has_dart(y));
            assert(self.deleted[y] == self.deleted[x]);
            assert(self.al(y, k) == x);
            if self.reaches(all, d, x) {
                self.lemma_reaches_step(all, d, x, k);
            }
            if self.reaches(all, d, y) {
                self.lemma_reaches_step(all, d, y, k);
            }
        }
    }

    /// Of a strictly increasing list of the live darts, `firsts` keeps the
    /// least dart of every orbit.
    pub proof fn lemma_firsts_minima(self, a: Alphas, l: Seq<int>, x: int)
        requires
            self.sound(),
            forall|k1: int, k2: int| 0 <= k1 < k2 < l.len() ==> #[trigger] l[k1] < #[trigger] l[k2],
            forall|y: int| listed(l, y) <==> self.live(y),
        ensures
            listed(self.firsts(a, l), x) <==> self.live(x) && self.is_orbit_min(a, x),
    {
        self.lemma_firsts_member(a, l, x);
        if listed(self.firsts(a, l), x) {
            let k = choose|k: int|
                0 <= k < l.len() && #[trigger] l[k] == x && !self.seen_before(a, l, k, x);
            assert(listed(l, x));
            assert forall|e: int| #[trigger] self.reaches(a, x, e) implies x <= e by {
                if e < x {
                    self.lemma_deleted_closure(a, x, e);
                    assert(listed(l, e));
                    let m = choose|m: int| 0 <= m < l.len() && #[trigger] l[m] == e;
                    if m > k {
                        assert(l[k] < l[m]);
                    }
                    self.lemma_reaches_sym(a, x, e);
                    assert(self.reaches(a, l[m], x));
                    assert(self.seen_before(a, l, k, x));
                }
            }
        }
        if self.live(x) && self.is_orbit_min(a, x) {
            assert(listed(l, x));
            let k = choose|k: int| 0 <= k < l.len() && #[trigger] l[k] == x;
            if self.seen_before(a, l, k, x) {
                let m = choose|m: int| 0 <= m < k && self.reaches(a, #[trigger] l[m], x);
                assert(l[m] < l[k]);
                assert(listed(l, l[m]));
                self.lemma_reaches_sym(a, l[m], x);
            }
            assert(l[k] == x && !self.seen_before(a, l, k, x));
        }
    }
}

impl GMap {
    /// The darts of the `a`-orbit of `d`, each once, in the order in which a
    /// breadth-first walk from `d` first reaches them.
    pub fn orbit(&self, d: Dart, a: Alphas) -> (r: Vec<Dart>)
        requires
            self.wf_links(),
            self@.has_dart(d@),
        ensures
            self@.orbit_is(a, d@, dart_seq(r@)),
            1 <= r@.len() <= self@.ndarts(),
            r@[0] == d,
            forall|e: int| self@.reaches(a, d@, e) <==> listed(dart_seq(r@), e),
            forall|k: int| 0 <= k < r@.len() ==> self@.has_dart(#[trigger] r@[k]@),
            forall|k1: int, k2: int| 0 <= k1 < k2 < r@.len() ==> r@[k1] != r@[k2],
    {
        let listing = self.orbit_paths(d, a);
        let mut out: Vec<Dart> = Vec::new();
        let mut k: usize = 0;
        while k < listing.len()
            invariant
                k <= listing@.len(),
                out@.len() == k,
                forall|m: int| 0 <= m < k ==> out@[m] == listing@[m].1,
            decreases listing@.len() - k,
        {
            out.push(listing[k].1);
            k += 1;
        }
        proof {
            assert(dart_seq(out@) =~= listing_darts(listing@));
            assert(self@.lists_orbit(a, d@, listing_paths(listing@), dart_seq(out@)));
            self@.lemma_orbit_is(a, d@, dart_seq(out@));
            assert(dart_seq(out@)[0] == d@);
            assert forall|m: int| 0 <= m < out@.len() implies self@.has_dart(#[trigger] out@[m]@) by {
                assert(self@.has_dart(dart_seq(out@)[m]));
            }
            assert forall|k1: int, k2: int| 0 <= k1 < k2 < out@.len() implies out@[k1] != out@[k2] by {
                assert(dart_seq(out@)[k1] != dart_seq(out@)[k2]);
            }
        }
        out
    }

    /// The darts of the `i`-cell of `d`: its orbit under every involution but
    /// `alpha_i`.
    pub fn cell(&self, d: Dart, i: usize) -> (r: Vec<Dart>)
        requires
            self.wf_links(),
            self@.has_dart(d@),
            i < 32,
        ensures
            self@.orbit_is(Alphas::spec_cell(i as int), d@, dart_seq(r@)),
            1 <= r@.len() <= self@.ndarts(),
            r@[0] == d,
            forall|e: int|
                self@.reaches(Alphas::spec_cell(i as int), d@, e) <==> listed(dart_seq(r@), e),
            forall|k: int| 0 <= k < r@.len() ==> self@.has_dart(#[trigger] r@[k]@),
    {
        self.orbit(d, Alphas::cell(i))
    }

    /// The live darts, in increasing order.
    pub fn live_darts(&self) -> (r: Vec<Dart>)
        requires
            self.wf_links(),
        ensures
            forall|k1: int, k2: int| 0 <= k1 < k2 < r@.len() ==> r@[k1]@ < r@[k2]@,
            forall|x: int| listed(dart_seq(r@), x) <==> self@.live(x),
    {
        let n: usize = self.ndarts();
        let mut out: Vec<Dart> = Vec::new();
        let mut d: usize = 0;
        while d < n
            invariant
                self.wf_links(),
                n == self@.ndarts(),
                d <= n,
                forall|k: int| 0 <= k < out@.len() ==> out@[k]@ < d,
                forall|k1: int, k2: int| 0 <= k1 < k2 < out@.len() ==> out@[k1]@ < out@[k2]@,
                forall|x: int| listed(dart_seq(out@), x) <==> (self@.live(x) && x < d),
            decreases n - d,
        {
            let ghost before = dart_seq(out@);
            if !self.is_deleted(Dart(d)) {
                out.push(Dart(d));
            }
            proof {
                let after = dart_seq(out@);
                assert forall|x: int| listed(after, x) <==> (self@.live(x) && x < d + 1) by {
                    if listed(after, x) {
                        let k = choose|k: int| 0 <= k < after.len() && #[trigger] after[k] == x;
                        if k < before.len() {
                            assert(before[k] == x);
                            assert(listed(before, x));
                        }
                    }
                    if self@.live(x) && x < d + 1 {
                        if x < d {
                            assert(listed(before, x));
                            let k = choose|k: int| 0 <= k < before.len() && #[trigger] before[k] == x;
                            assert(after[k] == x);
                        } else {
                            assert(after[after.len() - 1] == x);
                        }
                    }
                }
            }
            d += 1;
        }
        out
    }

    /// The darts of `l` that are the first of their `a`-orbit in `l`.
    pub fn unique_by_orbit(&self, l: &[Dart], a: Alphas) -> (r: Vec<Dart>)
        requires
            self.wf_links(),
            forall|k: int| 0 <= k < l@.len() ==> self@.has_dart(#[trigger] l@[k]@),
        ensures
            dart_seq(r@) == self@.firsts(a, dart_seq(l@)),
    {
        let n: usize = self.ndarts();
        let ghost ls = dart_seq(l@);
        let mut seen: Vec<bool> = all_false(n);
        let mut out: Vec<Dart> = Vec::new();
        let mut k: usize = 0;
        proof {
            assert(ls.take(0) =~= Seq::<int>::empty());
            assert(dart_seq(out@) =~= self@.firsts(a, ls.take(0)));
        }
        while k < l.len()
            invariant
                self.wf_links(),
                n == self@.ndarts(),
                ls == dart_seq(l@),
                k <= l@.len(),
                seen@.len() == n,
                forall|m: int| 0 <= m < l@.len() ==> self@.has_dart(#[trigger] l@[m]@),
                dart_seq(out@) == self@.firsts(a, ls.take(k as int)),
                forall|x: int|
                    0 <= x < n ==> (#[trigger] seen@[x] <==> self@.seen_before(a, ls, k as int, x)),
            decreases l@.len() - k,
        {
            let dart: Dart = l[k];
            let ghost l1 = ls.take(k as int + 1);
            let ghost before_out = dart_seq(out@);
            proof {
                assert(self@.has_dart(l@[k as int]@));
                assert(l1.drop_last() =~= ls.take(k as int));
                assert(l1.last() == dart@);
                assert(self@.seen_before(a, l1, k as int, dart@) <==> self@.seen_before(
                    a,
                    ls,
                    k as int,
                    dart@,
                )) by {
                    if self@.seen_before(a, l1, k as int, dart@) {
                        let m = choose|m: int|
                            0 <= m < k && self@.reaches(a, #[trigger] l1[m], dart@);
                        assert(self@.reaches(a, ls[m], dart@));
                    }
                    if self@.seen_before(a, ls, k as int, dart@) {
                        let m = choose|m: int|
                            0 <= m < k && self@.reaches(a, #[trigger] ls[m], dart@);
                        assert(self@.reaches(a, l1[m], dart@));
                    }
                }
            }
            if !seen[dart.0] {
                let ob = self.orbit(dart, a);
                let ghost seen0 = seen@;
                let mut t: usize = 0;
                while t < ob.len()
                    invariant
                        t <= ob@.len(),
                        seen@.len() == n,
                        seen0.len() == n,
                        forall|m: int| 0 <= m < ob@.len() ==> 0 <= #[trigger] ob@[m]@ < n,
                        forall|x: int|
                            0 <= x < n ==> (#[trigger] seen@[x] <==> (seen0[x] || exists|m: int|
                                0 <= m < t && #[trigger] ob@[m]@ == x)),
                    decreases ob@.len() - t,
                {
                    let ghost prev = seen@;
                    let e: Dart = ob[t];
                    proof {
                        assert(0 <= ob@[t as int]@ < n);
                    }
                    seen.set(e.0, true);
                    proof {
                        assert forall|x: int| 0 <= x < n implies (#[trigger] seen@[x] <==> (seen0[x]
                            || exists|m: int| 0 <= m < t + 1 && #[trigger] ob@[m]@ == x)) by {
                            if x == e@ {
                                assert(ob@[t as int]@ == x);
                            } else {
                                assert(seen@[x] == prev[x]);
                                if prev[x] && !seen0[x] {
                                    let m = choose|m: int| 0 <= m < t && #[trigger] ob@[m]@ == x;
                                    assert(ob@[m]@ == x);
                                }
                                if exists|m: int| 0 <= m < t + 1 && #[trigger] ob@[m]@ == x {
                                    let m = choose|m: int|
                                        0 <= m < t + 1 && #[trigger] ob@[m]@ == x;
                                    assert(m < t);
                                    assert(ob@[m]@ == x);
                                }
                            }
                        }
                    }
                    t += 1;
                }
                out.push(dart);
                proof {
                    assert(dart_seq(out@) =~= before_out.push(dart@));
                    assert forall|x: int| 0 <= x < n implies (#[trigger] seen@[x]
                        <==> self@.seen_before(a, ls, k as int + 1, x)) by {
                        let obs = dart_seq(ob@);
                        if seen@[x] {
                            if seen0[x] {
                                let m = choose|m: int|
                                    0 <= m < k && self@.reaches(a, #[trigger] ls[m], x);
                                assert(self@.reaches(a, ls[m], x));
                            } else {
                                let m = choose|m: int| 0 <= m < ob@.len() && #[trigger] ob@[m]@ == x;
                                assert(obs[m] == x);
                                assert(listed(obs, x));
                                assert(self@.reaches(a, ls[k as int], x));
                            }
                        }
                        if self@.seen_before(a, ls, k as int + 1, x) {
                            let m = choose|m: int|
                                0 <= m < k + 1 && self@.reaches(a, #[trigger] ls[m], x);
                            if m < k {
                                assert(self@.seen_before(a, ls, k as int, x));
                            } else {
                                assert(listed(obs, x));
                                let t2 = choose|t2: int| 0 <= t2 < obs.len() && #[trigger] obs[t2] == x;
                                assert(ob@[t2]@ == x);
                            }
                        }
                    }
                }
            } else {
                proof {
                    let m0 = choose|m: int|
                        0 <= m < k && self@.reaches(a, #[trigger] ls[m], dart@);
                    assert forall|x: int| 0 <= x < n implies (#[trigger] seen@[x]
                        <==> self@.seen_before(a, ls, k as int + 1, x)) by {
                        if seen@[x] {
                            let m = choose|m: int|
                                0 <= m < k && self@.reaches(a, #[trigger] ls[m], x);
                            assert(self@.reaches(a, ls[m], x));
                        }
                        if self@.seen_before(a, ls, k as int + 1, x) {
                            let m = choose|m: int|
                                0 <= m < k + 1 && self@.reaches(a, #[trigger] ls[m], x);
                            if m == k {
                                self@.lemma_reaches_trans(a, ls[m0], dart@, x);
                                assert(self@.reaches(a, ls[m0], x));
                            }
                            assert(self@.seen_before(a, ls, k as int, x));
                        }
                    }
                }
            }
            k += 1;
        }
        proof {
            assert(ls.take(k as int) =~= ls);
        }
        out
    }

    /// One dart of every `a`-orbit of live darts: the least of each, in
    /// increasing order.
    pub fn one_dart_per_orbit(&self, a: Alphas) -> (r: Vec<Dart>)
        requires
            self.wf_links(),
        ensures
            forall|k1: int, k2: int| 0 <= k1 < k2 < r@.len() ==> r@[k1]@ < r@[k2]@,
            forall|x: int|
                listed(dart_seq(r@), x) <==> self@.live(x) && self@.is_orbit_min(a, x),
            forall|k: int| 0 <= k < r@.len() ==> self@.live(#[trigger] r@[k]@),
    {
        let live = self.live_darts();
        proof {
            let ds = dart_seq(live@);
            assert forall|k: int| 0 <= k < live@.len() implies self@.has_dart(
                #[trigger] live@[k]@,
            ) by {
                assert(ds[k] == live@[k]@);
                assert(listed(ds, ds[k]));
                assert(self@.live(ds[k]));
            }
        }
        let out = self.unique_by_orbit(live.as_slice(), a);
        proof {
            let l = dart_seq(live@);
            assert forall|k1: int, k2: int| 0 <= k1 < k2 < l.len() implies #[trigger] l[k1]
                < #[trigger] l[k2] by {
                assert(live@[k1]@ < live@[k2]@);
            }
            self@.lemma_firsts_increasing(a, l);
            assert forall|x: int|
                listed(dart_seq(out@), x) <==> self@.live(x) && self@.is_orbit_min(a, x) by {
                self@.lemma_firsts_minima(a, l, x);
            }
            assert forall|k1: int, k2: int| 0 <= k1 < k2 < out@.len() implies out@[k1]@
                < out@[k2]@ by {
                assert(dart_seq(out@)[k1] < dart_seq(out@)[k2]);
            }
            assert forall|k: int| 0 <= k < out@.len() implies self@.live(#[trigger] out@[k]@) by {
                assert(dart_seq(out@)[k] == out@[k]@);
                assert(listed(dart_seq(out@), out@[k]@));
            }
        }
        out
    }

    /// One dart of every live `i`-cell: the least of each.
    pub fn one_dart_per_cell(&self, i: usize) -> (r: Vec<Dart>)
        requires
            self.wf_links(),
            i < 32,
        ensures
            forall|k1: int, k2: int| 0 <= k1 < k2 < r@.len() ==> r@[k1]@ < r@[k2]@,
            forall|x: int|
                listed(dart_seq(r@), x) <==> self@.live(x) && self@.is_orbit_min(
                    Alphas::spec_cell(i as int),
                    x,
                ),
            forall|k: int| 0 <= k < r@.len() ==> self@.live(#[trigger] r@[k]@),
    {
        self.one_dart_per_orbit(Alphas::cell(i))
    }

    /// One dart of every `a`-orbit that meets the `b`-orbit of `d`: the first
    /// of each in the enumeration of that `b`-orbit.
    pub fn one_dart_per_incident_orbit(&self, d: Dart, a: Alphas, b: Alphas) -> (r: Vec<Dart>)
        requires
            self.wf_links(),
            self@.has_dart(d@),
        ensures
            dart_seq(r@) == self@.incident(a, b, d@),
            exists|ob: Seq<int>|
                #[trigger] self@.orbit_is(b, d@, ob) && dart_seq(r@) == self@.firsts(a, ob),
            forall|k: int| 0 <= k < r@.len() ==> self@.reaches(b, d@, #[trigger] r@[k]@),
            forall|k: int| 0 <= k < r@.len() ==> self@.has_dart(#[trigger] r@[k]@),
    {
        let ob = self.orbit(d, b);
        let out = self.unique_by_orbit(ob.as_slice(), a);
        proof {
            let obs = dart_seq(ob@);
            assert(self@.orbit_is(b, d@, obs) && dart_seq(out@) == self@.firsts(a, obs));
            assert(self@.orbit_is(b, d@, self@.orbit_list(b, d@)));
            self@.lemma_orbit_deterministic(b, d@, obs, self@.orbit_list(b, d@));
            assert forall|k: int| 0 <= k < out@.len() implies self@.reaches(
                b,
                d@,
                #[trigger] out@[k]@,
            ) && self@.has_dart(out@[k]@) by {
                let x = out@[k]@;
                assert(dart_seq(out@)[k] == x);
                assert(listed(dart_seq(out@), x));
                self@.lemma_firsts_member(a, obs, x);
                let m = choose|m: int|
                    0 <= m < obs.len() && #[trigger] obs[m] == x && !self@.seen_before(a, obs, m, x);
                assert(listed(obs, x));
                assert(ob@[m]@ == x);
            }
        }
        out
    }

    /// One dart of every `i`-cell that meets the `j`-cell of `d`.
    pub fn one_dart_per_incident_cell(&self, d: Dart, i: usize, j: usize) -> (r: Vec<Dart>)
        requires
            self.wf_links(),
            self@.has_dart(d@),
            i < 32,
            j < 32,
        ensures
            dart_seq(r@) == self@.incident(
                Alphas::spec_cell(i as int),
                Alphas::spec_cell(j as int),
                d@,
            ),
            exists|ob: Seq<int>|
                #[trigger] self@.orbit_is(Alphas::spec_cell(j as int), d@, ob) && dart_seq(r@)
                    == self@.firsts(Alphas::spec_cell(i as int), ob),
            forall|k: int|
                0 <= k < r@.len() ==> self@.reaches(
                    Alphas::spec_cell(j as int),
                    d@,
                    #[trigger] r@[k]@,
                ),
            forall|k: int| 0 <= k < r@.len() ==> self@.has_dart(#[trigger] r@[k]@),
    {
        self.one_dart_per_incident_orbit(d, Alphas::cell(i), Alphas::cell(j))
    }
}

} // verus!

verus! {

impl GMap {
    /// The darts `d`, `f(d)`, `f(f(d))`, ... up to the last one before `d`
    /// comes again, where `f` applies the involutions of `indices` in order.
    pub fn cycle(&self, d: Dart, indices: &[usize]) -> (r: Vec<Dart>)
        requires
            self.wf_links(),
            self@.has_dart(d@),
            forall|k: int| 0 <= k < indices@.len() ==> self@.has_index(#[trigger] indices@[k] as int),
        ensures
            1 <= r@.len() <= self@.ndarts(),
            forall|k: int|
                0 <= k < r@.len() ==> r@[k]@ == #[trigger] crate::finite::iterate(
                    self@.walk_fn(ints(indices@)),
                    k as nat,
                    d@,
                ),
            crate::finite::iterate(self@.walk_fn(ints(indices@)), r@.len(), d@) == d@,
            forall|k: nat|
                1 <= k < r@.len() ==> #[trigger] crate::finite::iterate(
                    self@.walk_fn(ints(indices@)),
                    k,
                    d@,
                ) != d@,
            forall|k: int| 0 <= k < r@.len() ==> self@.has_dart(#[trigger] r@[k]@),
    {
        let n: usize = self.ndarts();
        let ghost p = ints(indices@);
        let ghost f = self@.walk_fn(p);
        proof {
            Alphas::lemma_named_masks();
            assert(self@.path_in(Alphas::all(), p)) by {
                assert forall|k: int| 0 <= k < p.len() implies self@.has_index(#[trigger] p[k])
                    && Alphas::all().contains(p[k]) by {
                    assert(self@.has_index(indices@[k] as int));
                }
            }
            self@.lemma_walk_permutes(Alphas::all(), p);
            crate::finite::lemma_returns(f, n as int, d@);
        }
        let mut out: Vec<Dart> = Vec::new();
        out.push(d);
        let mut cur: Dart = self.al(d, indices);
        proof {
            assert(crate::finite::iterate(f, 0, d@) == d@);
            assert(crate::finite::iterate(f, 1, d@) == f(crate::finite::iterate(f, 0, d@)));
        }
        while cur.0 != d.0
            invariant
                self.wf_links(),
                n == self@.ndarts(),
                p == ints(indices@),
                f == self@.walk_fn(p),
                self@.has_dart(d@),
                self@.has_dart(cur@),
                forall|k: int|
                    0 <= k < indices@.len() ==> self@.has_index(#[trigger] indices@[k] as int),
                crate::finite::permutes(f, n as int),
                exists|k: nat| 1 <= k <= n && #[trigger] crate::finite::iterate(f, k, d@) == d@,
                out@.len() >= 1,
                cur@ == crate::finite::iterate(f, out@.len(), d@),
                forall|k: int|
                    0 <= k < out@.len() ==> out@[k]@ == #[trigger] crate::finite::iterate(
                        f,
                        k as nat,
                        d@,
                    ),
                forall|k: nat|
                    1 <= k < out@.len() ==> #[trigger] crate::finite::iterate(f, k, d@) != d@,
                forall|k: int| 0 <= k < out@.len() ==> self@.has_dart(#[trigger] out@[k]@),
            decreases n - out@.len(),
        {
            proof {
                let k0 = choose|k: nat|
                    1 <= k <= n && #[trigger] crate::finite::iterate(f, k, d@) == d@;
                assert(out@.len() < k0);
            }
            out.push(cur);
            cur = self.al(cur, indices);
            proof {
                let s = out@.len();
                assert(crate::finite::iterate(f, s, d@) == f(
                    crate::finite::iterate(f, (s - 1) as nat, d@),
                ));
            }
        }
        proof {
            let k0 = choose|k: nat| 1 <= k <= n && #[trigger] crate::finite::iterate(f, k, d@) == d@;
            assert(out@.len() <= k0);
        }
        out
    }

    /// Deletes `d` together with its whole component: every dart that any
    /// sequence of involutions reaches from it.
    pub fn delete(&mut self, d: Dart) -> (r: Result<(), GMapError>)
        requires
            old(self).wf(),
            old(self)@.has_dart(d@),
        ensures
            final(self).wf(),
            match r {
                Ok(()) => old(self)@.live(d@) && final(self)@ == old(self)@.deleting(d@),
                Err(GMapError::Deleted) => !old(self)@.live(d@) && final(self)@ == old(self)@,
                Err(_) => false,
            },
    {
        if self.is_deleted(d) {
            return Err(GMapError::Deleted);
        }
        let ob = self.orbit(d, Alphas::all());
        let ghost g0 = self@;
        let ghost obs = dart_seq(ob@);
        let mut t: usize = 0;
        while t < ob.len()
            invariant
                t <= ob@.len(),
                self.rep_ok(),
                obs == dart_seq(ob@),
                self@.dimension == g0.dimension,
                self@.alpha == g0.alpha,
                self@.deleted.len() == g0.deleted.len(),
                g0.deleted.len() == g0.alpha.len(),
                forall|k: int| 0 <= k < ob@.len() ==> g0.has_dart(#[trigger] ob@[k]@),
                forall|x: int|
                    0 <= x < g0.deleted.len() ==> (#[trigger] self@.deleted[x] <==> (g0.deleted[x]
                        || exists|m: int| 0 <= m < t && #[trigger] obs[m] == x)),
            decreases ob@.len() - t,
        {
            let ghost prev = self@.deleted;
            let e: Dart = ob[t];
            proof {
                assert(g0.has_dart(ob@[t as int]@));
            }
            self.entomb(e);
            proof {
                assert forall|x: int| 0 <= x < g0.deleted.len() implies (#[trigger] self@.deleted[x]
                    <==> (g0.deleted[x] || exists|m: int| 0 <= m < t + 1 && #[trigger] obs[m] == x)) by {
                    if x == e@ {
                        assert(obs[t as int] == x);
                    } else {
                        assert(self@.deleted[x] == prev[x]);
                        if prev[x] && !g0.deleted[x] {
                            let m = choose|m: int| 0 <= m < t && #[trigger] obs[m] == x;
                            assert(obs[m] == x);
                        }
                        if exists|m: int| 0 <= m < t + 1 && #[trigger] obs[m] == x {
                            let m = choose|m: int| 0 <= m < t + 1 && #[trigger] obs[m] == x;
                            assert(m < t);
                            assert(obs[m] == x);
                        }
                    }
                }
            }
            t += 1;
        }
        proof {
            let target = g0.deleting(d@);
            assert forall|x: int| 0 <= x < g0.deleted.len() implies self@.deleted[x]
                == target.deleted[x] by {
                if g0.reaches(Alphas::all(), d@, x) {
                    assert(listed(obs, x));
                    let m = choose|m: int| 0 <= m < obs.len() && #[trigger] obs[m] == x;
                    assert(obs[m] == x);
                }
                if exists|m: int| 0 <= m < ob@.len() && #[trigger] obs[m] == x {
                    let m = choose|m: int| 0 <= m < ob@.len() && #[trigger] obs[m] == x;
                    assert(listed(obs, x));
                }
            }
            assert(self@.deleted =~= target.deleted);
            assert(self@ =~= target);
            g0.lemma_deleting_valid(d@);
        }
        Ok(())
    }
}

} // verus!
