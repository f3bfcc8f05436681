//! A circular doubly-linked list in an arena: nodes are indices into a
//! vector, rings are cut and joined by rewriting links, and no node is ever
//! freed before the list is dropped.

use crate::listing::listed;
use vstd::prelude::*;

verus! {

/// A node of a circular list: an index into its arena.
#[derive(Debug, Clone, Copy, PartialEq, Eq, Hash, PartialOrd, Ord, Structural)]
pub struct Node(pub usize);

impl View for Node {
    type V = int;

    open spec fn view(&self) -> int {
        self.0 as int
    }
}

/// What a node holds: its data and its two neighbours.
pub struct Data<T> {
    pub data: T,
    pub prev: Node,
    pub next: Node,
}

/// An arena of nodes, each on exactly one ring.
pub struct Circular<T> {
    v: Vec<Data<T>>,
}

impl<T> View for Circular<T> {
    type V = Seq<Data<T>>;

    closed spec fn view(&self) -> Seq<Data<T>> {
        self.v@
    }
}

/// The successor of node `n`.
pub open spec fn nx<T>(s: Seq<Data<T>>, n: int) -> int {
    s[n].next@
}

/// The predecessor of node `n`.
pub open spec fn pv<T>(s: Seq<Data<T>>, n: int) -> int {
    s[n].prev@
}

/// Every link stays in the arena, and `prev` undoes `next`.
#[verifier::opaque]
pub open spec fn linked<T>(s: Seq<Data<T>>) -> bool {
    &&& forall|n: int| 0 <= n < s.len() ==> 0 <= #[trigger] nx(s, n) < s.len()
    &&& forall|n: int| 0 <= n < s.len() ==> 0 <= #[trigger] pv(s, n) < s.len()
    &&& forall|n: int| 0 <= n < s.len() ==> pv(s, #[trigger] nx(s, n)) == n
    &&& forall|n: int| 0 <= n < s.len() ==> nx(s, #[trigger] pv(s, n)) == n
}

/// No entry stands twice in `s`.
#[verifier::opaque]
pub open spec fn distinct(s: Seq<int>) -> bool {
    forall|i: int, j: int| 0 <= i < j < s.len() ==> s[i] != s[j]
}

/// Two entries of a list without repetition differ.
pub proof fn lemma_distinct(s: Seq<int>, i: int, j: int)
    requires
        distinct(s),
        0 <= i < s.len(),
        0 <= j < s.len(),
        i != j,
    ensures
        s[i] != s[j],
{
    reveal(distinct);
    if i < j {
        assert(s[i] != s[j]);
    } else {
        assert(s[j] != s[i]);
    }
}

/// `nodes` is a whole ring of the list, in `next` order.
#[verifier::opaque]
pub open spec fn is_ring<T>(s: Seq<Data<T>>, nodes: Seq<int>) -> bool {
    &&& nodes.len() >= 1
    &&& forall|k: int| 0 <= k < nodes.len() ==> 0 <= #[trigger] nodes[k] < s.len()
    &&& forall|k: int| 0 <= k < nodes.len() - 1 ==> nx(s, #[trigger] nodes[k]) == nodes[k + 1]
    &&& nx(s, nodes[nodes.len() - 1]) == nodes[0]
    &&& distinct(nodes)
}

/// The list after `splice(a, b)`: `a` is followed by `b`, and what followed
/// `a` follows what preceded `b`.
#[verifier::opaque]
pub open spec fn spliced<T>(s: Seq<Data<T>>, a: int, b: int) -> Seq<Data<T>> {
    let an = s[a].next@;
    let bp = s[b].prev@;
    Seq::new(
        s.len(),
        |n: int|
            Data {
                data: s[n].data,
                prev: if n == an {
                    Node(bp as usize)
                } else if n == b {
                    Node(a as usize)
                } else {
                    s[n].prev
                },
                next: if n == bp {
                    Node(an as usize)
                } else if n == a {
                    Node(b as usize)
                } else {
                    s[n].next
                },
            },
    )
}

/// Splicing keeps every link in the arena and `prev` the inverse of `next`.
pub proof fn lemma_spliced_linked<T>(s: Seq<Data<T>>, a: int, b: int)
    requires
        linked(s),
        0 <= a < s.len(),
        0 <= b < s.len(),
    ensures
        linked(spliced(s, a, b)),
        spliced(s, a, b).len() == s.len(),
        forall|n: int| 0 <= n < s.len() ==> (#[trigger] spliced(s, a, b)[n]).data == s[n].data,
{
    reveal(linked);
    reveal(is_ring);
    reveal(spliced);
    let t = spliced(s, a, b);
    let an = nx(s, a);
    let bp = pv(s, b);
    assert(pv(s, an) == a);
    assert(nx(s, bp) == b);
    assert forall|n: int| 0 <= n < t.len() implies 0 <= #[trigger] nx(t, n) < t.len() by {
        assert(0 <= nx(s, n) < s.len());
    }
    assert forall|n: int| 0 <= n < t.len() implies 0 <= #[trigger] pv(t, n) < t.len() by {
        assert(0 <= pv(s, n) < s.len());
    }
    assert forall|n: int| 0 <= n < t.len() implies pv(t, #[trigger] nx(t, n)) == n by {
        let m = nx(s, n);
        assert(0 <= m < s.len());
        assert(pv(s, m) == n);
    }
    assert forall|n: int| 0 <= n < t.len() implies nx(t, #[trigger] pv(t, n)) == n by {
        let m = pv(s, n);
        assert(0 <= m < s.len());
        assert(nx(s, m) == n);
    }
}

impl<T> Circular<T> {
    /// The links of the list are consistent.
    pub open spec fn wf(&self) -> bool {
        linked(self@)
    }

    pub fn new() -> (r: Self)
        ensures
            r@.len() == 0,
            r.wf(),
    {
        proof {
            reveal(linked);
        }
        Circular { v: Vec::new() }
    }

    /// Number of nodes ever added.
    pub fn len(&self) -> (r: usize)
        ensures
            r == self@.len(),
    {
        self.v.len()
    }

    /// Adds a node that is a ring by itself.
    pub fn add_node(&mut self, data: T) -> (r: Node)
        requires
            old(self).wf(),
        ensures
            final(self).wf(),
            r@ == old(self)@.len(),
            final(self)@ == old(self)@.push(Data { data, prev: r, next: r }),
    {
        let n: usize = self.v.len();
        self.v.push(Data { data, prev: Node(n), next: Node(n) });
        proof {
            reveal(linked);
            reveal(is_ring);
            reveal(spliced);
            let s = old(self)@;
            let t = self@;
            assert forall|k: int| 0 <= k < t.len() implies 0 <= #[trigger] nx(t, k) < t.len()
                && pv(t, nx(t, k)) == k by {
                if k < n {
                    assert(0 <= nx(s, k) < s.len());
                    assert(pv(s, nx(s, k)) == k);
                }
            }
            assert forall|k: int| 0 <= k < t.len() implies 0 <= #[trigger] pv(t, k) < t.len()
                && nx(t, pv(t, k)) == k by {
                if k < n {
                    assert(0 <= pv(s, k) < s.len());
                    assert(nx(s, pv(s, k)) == k);
                }
            }
        }
        Node(n)
    }

    /// What node `n` holds.
    pub fn node(&self, n: Node) -> (r: &Data<T>)
        requires
            n@ < self@.len(),
        ensures
            *r == self@[n@],
    {
        &self.v[n.0]
    }

    /// The data of node `n`, to be changed in place.
    pub fn mut_data(&mut self, n: Node) -> (r: &mut T)
        requires
            old(self).wf(),
            n@ < old(self)@.len(),
        ensures
            *r == old(self)@[n@].data,
            final(self)@ == old(self)@.update(
                n@,
                Data { data: *final(r), prev: old(self)@[n@].prev, next: old(self)@[n@].next },
            ),
            final(self)@.len() == old(self)@.len(),
            forall|k: int|
                0 <= k < old(self)@.len() ==> #[trigger] nx(final(self)@, k) == nx(old(self)@, k)
                    && pv(final(self)@, k) == pv(old(self)@, k),
    {
        &mut self.v[n.0].data
    }

    /// Replaces the data of node `n`.
    pub fn set_data(&mut self, n: Node, data: T)
        requires
            old(self).wf(),
            n@ < old(self)@.len(),
        ensures
            final(self).wf(),
            final(self)@ == old(self)@.update(
                n@,
                Data { data, prev: old(self)@[n@].prev, next: old(self)@[n@].next },
            ),
    {
        let prev = self.v[n.0].prev;
        let next = self.v[n.0].next;
        self.v.set(n.0, Data { data, prev, next });
        proof {
            reveal(linked);
            reveal(is_ring);
            reveal(spliced);
            let s = old(self)@;
            let t = self@;
            assert forall|k: int| 0 <= k < t.len() implies #[trigger] nx(t, k) == nx(s, k) && pv(
                t,
                k,
            ) == pv(s, k) by {}
            assert forall|k: int| 0 <= k < t.len() implies 0 <= #[trigger] nx(t, k) < t.len()
                && pv(t, nx(t, k)) == k by {
                assert(0 <= nx(s, k) < s.len());
                assert(pv(s, nx(s, k)) == k);
                assert(pv(t, nx(s, k)) == pv(s, nx(s, k)));
            }
            assert forall|k: int| 0 <= k < t.len() implies 0 <= #[trigger] pv(t, k) < t.len()
                && nx(t, pv(t, k)) == k by {
                assert(0 <= pv(s, k) < s.len());
                assert(nx(s, pv(s, k)) == k);
                assert(nx(t, pv(s, k)) == nx(s, pv(s, k)));
            }
        }
    }
}

impl<T> Circular<T> {
    fn set_next(&mut self, n: Node, next: Node)
        requires
            n@ < old(self)@.len(),
        ensures
            final(self)@ == old(self)@.update(
                n@,
                Data { data: old(self)@[n@].data, prev: old(self)@[n@].prev, next },
            ),
    {
        self.v[n.0].next = next;
    }

    fn set_prev(&mut self, n: Node, prev: Node)
        requires
            n@ < old(self)@.len(),
        ensures
            final(self)@ == old(self)@.update(
                n@,
                Data { data: old(self)@[n@].data, prev, next: old(self)@[n@].next },
            ),
    {
        self.v[n.0].prev = prev;
    }

    /// Rewrites links so that `b` follows `a`: what followed `a` now follows
    /// what preceded `b`. Joins the rings of `a` and `b` when they differ,
    /// and cuts their ring in two when they do not. Returns the node that
    /// preceded `b`.
    pub fn splice(&mut self, a: Node, b: Node) -> (r: Node)
        requires
            old(self).wf(),
            a@ < old(self)@.len(),
            b@ < old(self)@.len(),
        ensures
            final(self).wf(),
            r == old(self)@[b@].prev,
            final(self)@ == spliced(old(self)@, a@, b@),
    {
        let an: Node = self.v[a.0].next;
        let bp: Node = self.v[b.0].prev;
        proof {
            reveal(linked);
            reveal(is_ring);
            reveal(spliced);
            assert(0 <= nx(old(self)@, a@) < old(self)@.len());
            assert(0 <= pv(old(self)@, b@) < old(self)@.len());
        }
        self.set_next(a, b);
        self.set_prev(b, a);
        self.set_prev(an, bp);
        self.set_next(bp, an);
        proof {
            reveal(linked);
            reveal(is_ring);
            reveal(spliced);
            let s = old(self)@;
            let t = spliced(s, a@, b@);
            assert(pv(s, nx(s, a@)) == a@);
            assert(nx(s, pv(s, b@)) == b@);
            assert(self@.len() == t.len());
            assert forall|n: int| 0 <= n < t.len() implies self@[n] == t[n] by {}
            assert(self@ =~= t);
            lemma_spliced_linked(s, a@, b@);
        }
        bp
    }

    /// Cuts the nodes from `a` to `b` out of their ring, as a ring of their
    /// own: `a` now follows `b`. Returns the node that preceded `a`.
    pub fn split(&mut self, a: Node, b: Node) -> (r: Node)
        requires
            old(self).wf(),
            a@ < old(self)@.len(),
            b@ < old(self)@.len(),
        ensures
            final(self).wf(),
            r == old(self)@[a@].prev,
            final(self)@ == spliced(old(self)@, b@, a@),
    {
        self.splice(b, a)
    }
}

impl<T> Circular<T> {
    /// The nodes of the ring of `start`, from `start` on, in `next` order.
    pub fn iter(&self, start: Node) -> (r: Vec<Node>)
        requires
            self.wf(),
            start@ < self@.len(),
        ensures
            is_ring(self@, node_ints(r@)),
            r@[0] == start,
            1 <= r@.len() <= self@.len(),
    {
        let n: usize = self.v.len();
        let mut out: Vec<Node> = Vec::new();
        out.push(start);
        proof {
            reveal(linked);
            assert(0 <= nx(self@, start@) < self@.len());
        }
        let mut cur: Node = self.v[start.0].next;
        while cur.0 != start.0
            invariant
                self.wf(),
                n == self@.len(),
                start@ < n,
                cur@ < n,
                out@.len() >= 1,
                out@[0] == start,
                forall|k: int| 0 <= k < out@.len() ==> (#[trigger] out@[k])@ < n,
                forall|k: int|
                    0 <= k < out@.len() - 1 ==> nx(self@, (#[trigger] out@[k])@) == out@[k + 1]@,
                nx(self@, out@[out@.len() - 1]@) == cur@,
                forall|k1: int, k2: int|
                    0 <= k1 < k2 < out@.len() ==> (#[trigger] out@[k1])@ != (#[trigger] out@[k2])@,
            decreases n - out@.len(),
        {
            proof {
                reveal(linked);
                let s = out@.len() as int;
                // the new node differs from every node listed so far
                assert forall|k1: int| 0 <= k1 < s implies (#[trigger] out@[k1])@ != cur@ by {
                    if out@[k1]@ == cur@ {
                        assert(k1 >= 1);
                        assert(nx(self@, out@[k1 - 1]@) == out@[k1]@);
                        assert(pv(self@, nx(self@, out@[k1 - 1]@)) == out@[k1 - 1]@);
                        assert(pv(self@, nx(self@, out@[s - 1]@)) == out@[s - 1]@);
                        if k1 - 1 < s - 1 {
                            assert(out@[k1 - 1]@ != out@[s - 1]@);
                        }
                    }
                }
                let longer = node_ints(out@).push(cur@);
                assert forall|i: int| 0 <= i < longer.len() implies 0 <= #[trigger] longer[i] < n by {
                    if i < s {
                        assert(out@[i]@ < n);
                    }
                }
                assert forall|i: int, j: int| 0 <= i < j < longer.len() implies longer[i]
                    != longer[j] by {
                    if j < s {
                        assert(out@[i]@ != out@[j]@);
                    } else {
                        assert(out@[i]@ != cur@);
                    }
                }
                crate::finite::lemma_distinct_bounded(longer, n as int);
            }
            out.push(cur);
            proof {
                reveal(linked);
                assert(0 <= nx(self@, cur@) < self@.len());
            }
            cur = self.v[cur.0].next;
        }
        proof {
            reveal(is_ring);
            let nodes = node_ints(out@);
            assert forall|k: int| 0 <= k < nodes.len() implies 0 <= #[trigger] nodes[k]
                < self@.len() by {
                assert(out@[k]@ < n);
            }
            assert forall|k: int| 0 <= k < nodes.len() - 1 implies nx(self@, #[trigger] nodes[k])
                == nodes[k + 1] by {
                assert(nx(self@, out@[k]@) == out@[k + 1]@);
            }
            assert(distinct(nodes)) by {
                reveal(distinct);
                assert forall|k1: int, k2: int| 0 <= k1 < k2 < nodes.len() implies nodes[k1]
                    != nodes[k2] by {
                    assert(out@[k1]@ != out@[k2]@);
                }
            }
            assert forall|k1: int, k2: int| 0 <= k1 < k2 < nodes.len() implies nodes[k1]
                != nodes[k2] by {
                assert(out@[k1]@ != out@[k2]@);
            }
            crate::finite::lemma_distinct_bounded(nodes, n as int);
        }
        out
    }
}

/// The nodes of a list, as integers.
pub open spec fn node_ints(l: Seq<Node>) -> Seq<int> {
    Seq::new(l.len(), |k: int| l[k]@)
}

} // verus!

verus! {

/// A ring read from its `k`-th node on.
pub open spec fn rotated(r: Seq<int>, k: int) -> Seq<int> {
    r.subrange(k, r.len() as int) + r.subrange(0, k)
}

/// A ring can be read from any of its nodes.
pub proof fn lemma_ring_rotated<T>(s: Seq<Data<T>>, r: Seq<int>, k: int)
    requires
        is_ring(s, r),
        0 <= k < r.len(),
    ensures
        is_ring(s, rotated(r, k)),
        rotated(r, k).len() == r.len(),
        rotated(r, k)[0] == r[k],
{
    reveal(linked);
    reveal(is_ring);
    reveal(spliced);
    let q = rotated(r, k);
    let n = r.len() as int;
    assert forall|i: int| 0 <= i < n implies #[trigger] q[i] == r[if i + k < n {
        i + k
    } else {
        i + k - n
    }] by {}
    assert forall|i: int| 0 <= i < q.len() implies 0 <= #[trigger] q[i] < s.len() by {
        let j = if i + k < n {
            i + k
        } else {
            i + k - n
        };
        assert(0 <= r[j] < s.len());
    }
    assert forall|i: int| 0 <= i < q.len() - 1 implies nx(s, #[trigger] q[i]) == q[i + 1] by {
        let j = if i + k < n {
            i + k
        } else {
            i + k - n
        };
        if j < n - 1 {
            assert(nx(s, r[j]) == r[j + 1]);
        }
    }
    assert(nx(s, q[q.len() - 1]) == q[0]) by {
        if k > 0 {
            assert(nx(s, r[k - 1]) == r[k]);
        }
    }
    assert(distinct(q)) by {
        reveal(distinct);
        assert forall|i1: int, i2: int| 0 <= i1 < i2 < q.len() implies q[i1] != q[i2] by {
            let j1 = if i1 + k < n {
                i1 + k
            } else {
                i1 + k - n
            };
            let j2 = if i2 + k < n {
                i2 + k
            } else {
                i2 + k - n
            };
            lemma_distinct(r, j1, j2);
        }
    }
}

/// In a linked list, the predecessor of the first node of a ring is its last
/// node, and that of any other node the node before it.
pub proof fn lemma_ring_prev<T>(s: Seq<Data<T>>, r: Seq<int>, k: int)
    requires
        linked(s),
        is_ring(s, r),
        0 <= k < r.len(),
    ensures
        pv(s, r[k]) == (if k == 0 {
            r[r.len() - 1]
        } else {
            r[k - 1]
        }),
{
    reveal(linked);
    reveal(is_ring);
    reveal(spliced);
    let j = if k == 0 {
        r.len() - 1
    } else {
        k - 1
    };
    assert(0 <= r[j] < s.len());
    assert(nx(s, r[j]) == r[k]);
    assert(pv(s, nx(s, r[j])) == r[j]);
}

/// Cutting the nodes `r[1] .. r[n]` out of a ring leaves the ring of the
/// other nodes, and makes a ring of the nodes that were cut out.
pub proof fn lemma_ring_split<T>(s: Seq<Data<T>>, r: Seq<int>, n: int)
    requires
        linked(s),
        is_ring(s, r),
        1 <= n < r.len(),
    ensures
        is_ring(spliced(s, r[n], r[1]), r.subrange(1, n + 1)),
        is_ring(spliced(s, r[n], r[1]), seq![r[0]] + r.subrange(n + 1, r.len() as int)),
{
    reveal(linked);
    reveal(is_ring);
    reveal(spliced);
    let t = spliced(s, r[n], r[1]);
    let len = r.len() as int;
    lemma_ring_prev(s, r, 1);
    assert(0 <= r[n] < s.len() && 0 <= r[1] < s.len() && 0 <= r[0] < s.len());
    let an = nx(s, r[n]);
    assert(an == (if n + 1 < len {
        r[n + 1]
    } else {
        r[0]
    })) by {
        if n + 1 < len {
            assert(nx(s, r[n]) == r[n + 1]);
        }
    }
    assert(pv(s, r[1]) == r[0]);
    assert forall|k: int| 0 <= k < len implies #[trigger] nx(t, r[k]) == (if k == 0 {
        an
    } else if k == n {
        r[1]
    } else {
        nx(s, r[k])
    }) by {
        assert(0 <= r[k] < s.len());
        if k != 0 {
            lemma_distinct(r, 0, k);
        }
        if k != n {
            lemma_distinct(r, k, n);
        }
    }
    let inner = r.subrange(1, n + 1);
    assert forall|k: int| 0 <= k < inner.len() - 1 implies nx(t, #[trigger] inner[k]) == inner[k
        + 1] by {
        assert(inner[k] == r[k + 1]);
        assert(nx(t, r[k + 1]) == nx(s, r[k + 1]));
        assert(nx(s, r[k + 1]) == r[k + 2]);
    }
    assert(nx(t, inner[inner.len() - 1]) == inner[0]) by {
        assert(inner[inner.len() - 1] == r[n]);
        assert(nx(t, r[n]) == r[1]);
    }
    assert(distinct(inner)) by {
        reveal(distinct);
        assert forall|k1: int, k2: int| 0 <= k1 < k2 < inner.len() implies inner[k1]
            != inner[k2] by {
            lemma_distinct(r, k1 + 1, k2 + 1);
        }
    }
    assert forall|k: int| 0 <= k < inner.len() implies 0 <= #[trigger] inner[k] < t.len() by {
        assert(0 <= r[k + 1] < s.len());
    }
    let outer = seq![r[0]] + r.subrange(n + 1, len);
    assert forall|k: int| 0 <= k < outer.len() implies #[trigger] outer[k] == (if k == 0 {
        r[0]
    } else {
        r[k + n]
    }) by {}
    assert forall|k: int| 0 <= k < outer.len() implies 0 <= #[trigger] outer[k] < t.len() by {
        if k > 0 {
            assert(0 <= r[k + n] < s.len());
        }
    }
    assert forall|k: int| 0 <= k < outer.len() - 1 implies nx(t, #[trigger] outer[k]) == outer[k
        + 1] by {
        if k == 0 {
            assert(nx(t, r[0]) == an);
        } else {
            assert(nx(t, r[k + n]) == nx(s, r[k + n]));
            assert(nx(s, r[k + n]) == r[k + n + 1]);
        }
    }
    assert(nx(t, outer[outer.len() - 1]) == outer[0]) by {
        if outer.len() == 1 {
            assert(nx(t, r[0]) == an);
        } else {
            assert(outer[outer.len() - 1] == r[len - 1]);
            assert(nx(t, r[len - 1]) == nx(s, r[len - 1]));
        }
    }
    assert(distinct(outer)) by {
        reveal(distinct);
        assert forall|k1: int, k2: int| 0 <= k1 < k2 < outer.len() implies outer[k1]
            != outer[k2] by {
            if k1 == 0 {
                lemma_distinct(r, 0, k2 + n);
            } else {
                lemma_distinct(r, k1 + n, k2 + n);
            }
        }
    }
}

/// Splicing a node that is a ring by itself after the first node of a ring
/// puts it there.
pub proof fn lemma_ring_insert<T>(s: Seq<Data<T>>, r: Seq<int>, x: int)
    requires
        linked(s),
        is_ring(s, r),
        0 <= x < s.len(),
        nx(s, x) == x,
        pv(s, x) == x,
        forall|k: int| 0 <= k < r.len() ==> #[trigger] r[k] != x,
    ensures
        is_ring(spliced(s, r[0], x), seq![r[0], x] + r.subrange(1, r.len() as int)),
{
    reveal(linked);
    reveal(is_ring);
    reveal(spliced);
    let t = spliced(s, r[0], x);
    let len = r.len() as int;
    let q = seq![r[0], x] + r.subrange(1, len);
    assert(0 <= r[0] < s.len());
    let an = nx(s, r[0]);
    assert(an == (if len > 1 {
        r[1]
    } else {
        r[0]
    })) by {
        if len > 1 {
            assert(nx(s, r[0]) == r[1]);
        }
    }
    assert forall|k: int| 0 <= k < q.len() implies #[trigger] q[k] == (if k == 0 {
        r[0]
    } else if k == 1 {
        x
    } else {
        r[k - 1]
    }) by {}
    assert forall|k: int| 0 <= k < len implies #[trigger] nx(t, r[k]) == (if k == 0 {
        x
    } else {
        nx(s, r[k])
    }) by {
        assert(0 <= r[k] < s.len());
        assert(r[k] != x);
        if k != 0 {
            lemma_distinct(r, 0, k);
        }
    }
    assert(nx(t, x) == an);
    assert forall|k: int| 0 <= k < q.len() implies 0 <= #[trigger] q[k] < t.len() by {
        if k >= 2 {
            assert(0 <= r[k - 1] < s.len());
        }
    }
    assert forall|k: int| 0 <= k < q.len() - 1 implies nx(t, #[trigger] q[k]) == q[k + 1] by {
        if k == 0 {
            assert(nx(t, r[0]) == x);
        } else if k == 1 {
        } else {
            assert(nx(t, r[k - 1]) == nx(s, r[k - 1]));
            assert(nx(s, r[k - 1]) == r[k]);
        }
    }
    assert(nx(t, q[q.len() - 1]) == q[0]) by {
        if len > 1 {
            assert(q[q.len() - 1] == r[len - 1]);
            assert(nx(t, r[len - 1]) == nx(s, r[len - 1]));
        }
    }
    assert(distinct(q)) by {
        reveal(distinct);
        assert forall|k1: int, k2: int| 0 <= k1 < k2 < q.len() implies q[k1] != q[k2] by {
            if k1 == 0 {
                if k2 == 1 {
                    assert(r[0] != x);
                } else {
                    lemma_distinct(r, 0, k2 - 1);
                }
            } else if k1 == 1 {
                assert(r[k2 - 1] != x);
            } else {
                lemma_distinct(r, k1 - 1, k2 - 1);
            }
        }
    }
}

} // verus!

verus! {

/// A node lies on one ring only: two rings with the same first node are the
/// same.
pub proof fn lemma_ring_unique<T>(s: Seq<Data<T>>, r1: Seq<int>, r2: Seq<int>)
    requires
        is_ring(s, r1),
        is_ring(s, r2),
        r1[0] == r2[0],
    ensures
        r1 == r2,
{
    reveal(linked);
    reveal(is_ring);
    reveal(spliced);
    lemma_ring_prefix(s, r1, r2, r1.len() as int);
    lemma_ring_prefix(s, r2, r1, r2.len() as int);
    assert(r1 =~= r2);
}

proof fn lemma_ring_prefix<T>(s: Seq<Data<T>>, r1: Seq<int>, r2: Seq<int>, n: int)
    requires
        is_ring(s, r1),
        is_ring(s, r2),
        r1[0] == r2[0],
        1 <= n <= r1.len(),
    ensures
        n <= r2.len(),
        forall|k: int| 0 <= k < n ==> r1[k] == r2[k],
    decreases n,
{
    reveal(linked);
    reveal(is_ring);
    reveal(spliced);
    if n > 1 {
        lemma_ring_prefix(s, r1, r2, n - 1);
        assert(nx(s, r1[n - 2]) == r1[n - 1]);
        assert(r1[n - 2] == r2[n - 2]);
        if n - 1 == r2.len() {
            // the second ring closes here, so the first would repeat its first node
            assert(nx(s, r2[r2.len() - 1]) == r2[0]);
            lemma_distinct(r1, 0, n - 1);
        } else {
            assert(nx(s, r2[n - 2]) == r2[n - 1]);
        }
    }
}

} // verus!

verus! {

/// An entry of a concatenation is an entry of one of its parts.
pub proof fn lemma_listed_concat(a: Seq<int>, b: Seq<int>, x: int)
    ensures
        listed(a + b, x) <==> listed(a, x) || listed(b, x),
{
    if listed(a + b, x) {
        let k = choose|k: int| 0 <= k < (a + b).len() && #[trigger] (a + b)[k] == x;
        if k < a.len() {
            assert(a[k] == x);
        } else {
            assert(b[k - a.len()] == x);
        }
    }
    if listed(a, x) {
        let k = choose|k: int| 0 <= k < a.len() && #[trigger] a[k] == x;
        assert((a + b)[k] == x);
    }
    if listed(b, x) {
        let k = choose|k: int| 0 <= k < b.len() && #[trigger] b[k] == x;
        assert((a + b)[k + a.len()] == x);
    }
}

/// A concatenation is without repetition when its parts are, and share no
/// entry.
pub proof fn lemma_distinct_concat(a: Seq<int>, b: Seq<int>)
    requires
        distinct(a),
        distinct(b),
        forall|x: int| #[trigger] listed(a, x) ==> !listed(b, x),
    ensures
        distinct(a + b),
{
    reveal(distinct);
    assert forall|i: int, j: int| 0 <= i < j < (a + b).len() implies (a + b)[i] != (a + b)[j] by {
        if j < a.len() {
            assert(a[i] != a[j]);
        } else if i >= a.len() {
            assert(b[i - a.len()] != b[j - a.len()]);
        } else {
            assert(a[i] == a[i]);
            assert(listed(a, a[i]));
            if a[i] == b[j - a.len()] {
                assert(listed(b, a[i]));
            }
        }
    }
}

/// The parts of a list without repetition are without repetition, and share
/// no entry.
pub proof fn lemma_distinct_parts(a: Seq<int>, b: Seq<int>)
    requires
        distinct(a + b),
    ensures
        distinct(a),
        distinct(b),
        forall|x: int| #[trigger] listed(a, x) ==> !listed(b, x),
{
    reveal(distinct);
    assert forall|i: int, j: int| 0 <= i < j < a.len() implies a[i] != a[j] by {
        assert((a + b)[i] != (a + b)[j]);
    }
    assert forall|i: int, j: int| 0 <= i < j < b.len() implies b[i] != b[j] by {
        assert((a + b)[i + a.len()] != (a + b)[j + a.len()]);
    }
    assert forall|x: int| #[trigger] listed(a, x) implies !listed(b, x) by {
        let i = choose|i: int| 0 <= i < a.len() && #[trigger] a[i] == x;
        if listed(b, x) {
            let j = choose|j: int| 0 <= j < b.len() && #[trigger] b[j] == x;
            assert((a + b)[i] != (a + b)[j + a.len()]);
        }
    }
}

/// A ring read from another node holds the same nodes.
pub proof fn lemma_listed_rotated(r: Seq<int>, k: int, x: int)
    requires
        0 <= k <= r.len(),
    ensures
        listed(rotated(r, k), x) <==> listed(r, x),
{
    assert(r =~= r.subrange(0, k) + r.subrange(k, r.len() as int));
    lemma_listed_concat(r.subrange(0, k), r.subrange(k, r.len() as int), x);
    lemma_listed_concat(r.subrange(k, r.len() as int), r.subrange(0, k), x);
}

} // verus!

verus! {

/// What a ring says of its `k`-th node.
pub proof fn lemma_ring_node<T>(s: Seq<Data<T>>, r: Seq<int>, k: int)
    requires
        is_ring(s, r),
        0 <= k < r.len(),
    ensures
        0 <= r[k] < s.len(),
        nx(s, r[k]) == (if k + 1 < r.len() {
            r[k + 1]
        } else {
            r[0]
        }),
        distinct(r),
{
    reveal(is_ring);
}

/// A ring has a node.
pub proof fn lemma_ring_nonempty<T>(s: Seq<Data<T>>, r: Seq<int>)
    requires
        is_ring(s, r),
    ensures
        r.len() >= 1,
        0 <= r[0] < s.len(),
        distinct(r),
{
    reveal(is_ring);
}

/// A node that follows itself is a ring.
pub proof fn lemma_ring_single<T>(s: Seq<Data<T>>, x: int)
    requires
        0 <= x < s.len(),
        nx(s, x) == x,
    ensures
        is_ring(s, seq![x]),
{
    reveal(is_ring);
    reveal(distinct);
}

/// A list with one more node, a ring by itself, is linked, and keeps its
/// rings.
pub proof fn lemma_added<T>(s: Seq<Data<T>>, data: T, r: Seq<int>)
    requires
        linked(s),
        s.len() <= usize::MAX,
    ensures
        ({
            let x = s.len() as int;
            let t = s.push(Data { data, prev: Node(x as usize), next: Node(x as usize) });
            &&& linked(t)
            &&& nx(t, x) == x
            &&& pv(t, x) == x
            &&& is_ring(s, r) ==> is_ring(t, r)
            &&& forall|k: int| 0 <= k < s.len() ==> #[trigger] t[k] == s[k]
        }),
{
    reveal(linked);
    reveal(is_ring);
    let x = s.len() as int;
    let t = s.push(Data { data, prev: Node(x as usize), next: Node(x as usize) });
    assert forall|k: int| 0 <= k < t.len() implies 0 <= #[trigger] nx(t, k) < t.len() && pv(
        t,
        nx(t, k),
    ) == k by {
        if k < x {
            assert(0 <= nx(s, k) < s.len());
            assert(pv(s, nx(s, k)) == k);
        }
    }
    assert forall|k: int| 0 <= k < t.len() implies 0 <= #[trigger] pv(t, k) < t.len() && nx(
        t,
        pv(t, k),
    ) == k by {
        if k < x {
            assert(0 <= pv(s, k) < s.len());
            assert(nx(s, pv(s, k)) == k);
        }
    }
    if is_ring(s, r) {
        assert forall|k: int| 0 <= k < r.len() - 1 implies nx(t, #[trigger] r[k]) == r[k + 1] by {
            assert(0 <= r[k] < s.len());
            assert(nx(s, r[k]) == r[k + 1]);
        }
        assert(0 <= r[r.len() - 1] < s.len());
    }
}

/// Changing what a node holds keeps the list linked, and keeps its rings.
pub proof fn lemma_data_set<T>(s: Seq<Data<T>>, x: int, data: T, r: Seq<int>)
    requires
        linked(s),
        0 <= x < s.len(),
    ensures
        ({
            let t = s.update(x, Data { data, prev: s[x].prev, next: s[x].next });
            &&& linked(t)
            &&& is_ring(s, r) ==> is_ring(t, r)
        }),
{
    reveal(linked);
    reveal(is_ring);
    let t = s.update(x, Data { data, prev: s[x].prev, next: s[x].next });
    assert forall|k: int| 0 <= k < s.len() implies #[trigger] nx(t, k) == nx(s, k) && pv(t, k)
        == pv(s, k) by {}
    assert forall|k: int| 0 <= k < t.len() implies 0 <= #[trigger] nx(t, k) < t.len() && pv(
        t,
        nx(t, k),
    ) == k by {
        assert(0 <= nx(s, k) < s.len());
        assert(pv(s, nx(s, k)) == k);
        assert(pv(t, nx(s, k)) == pv(s, nx(s, k)));
    }
    assert forall|k: int| 0 <= k < t.len() implies 0 <= #[trigger] pv(t, k) < t.len() && nx(
        t,
        pv(t, k),
    ) == k by {
        assert(0 <= pv(s, k) < s.len());
        assert(nx(s, pv(s, k)) == k);
        assert(nx(t, pv(s, k)) == nx(s, pv(s, k)));
    }
    if is_ring(s, r) {
        assert forall|k: int| 0 <= k < r.len() - 1 implies nx(t, #[trigger] r[k]) == r[k + 1] by {
            assert(0 <= r[k] < s.len());
            assert(nx(s, r[k]) == r[k + 1]);
        }
        assert(0 <= r[r.len() - 1] < s.len());
    }
}

/// Splicing changes no data.
pub proof fn lemma_spliced_data<T>(s: Seq<Data<T>>, a: int, b: int)
    ensures
        spliced(s, a, b).len() == s.len(),
        forall|n: int| 0 <= n < s.len() ==> (#[trigger] spliced(s, a, b)[n]).data == s[n].data,
{
    reveal(spliced);
}

} // verus!
