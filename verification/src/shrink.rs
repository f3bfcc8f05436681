//! The shrink procedure on the corners of one face: which corners a red
//! clause joins, in which order, and with how many mountains.
//!
//! The corners of a face that are not flat stand on a ring, each with the
//! effective length of the edge that follows it counter-clockwise. A valley
//! is a run of equal edges shorter than the edges on both its sides. Each
//! step cuts the corners of the first valley out of the ring into a red
//! clause, and closes the ring over the gap.

use crate::circular::{
    distinct, is_ring, lemma_added, lemma_data_set, lemma_distinct, lemma_distinct_concat,
    lemma_distinct_parts, lemma_listed_concat, lemma_ring_insert, lemma_ring_node,
    lemma_ring_nonempty, lemma_ring_prev, lemma_ring_rotated, lemma_ring_single, lemma_ring_split,
    lemma_ring_unique, lemma_spliced_data, lemma_spliced_linked, linked, node_ints, pv, rotated,
    spliced, Circular, Data, Node,
};
use crate::listing::listed;
use crate::sums::{
    abs, alt_sum, lemma_alt_concat, lemma_alt_push, lemma_alt_rotate, lemma_alt_run,
    lemma_mass_bounds, lemma_mass_concat, lemma_mass_nonnegative, lemma_mass_push, lemma_mass_run,
    mass, run,
};
use vstd::prelude::*;

verus! {

/// An effective length: a sum of edge lengths, or what a step of the
/// procedure makes of three of them.
pub type Span = i128;

/// A bound on the sum of the absolute values of the effective lengths of one
/// face: fewer than `2^64` edges, each shorter than `2^31`.
pub open spec fn mass_bound() -> int {
    0x8000_0000_0000_0000_0000_0000
}

/// The lengths held by the nodes of a ring.
pub open spec fn ring_lens(c: Seq<Data<Span>>, r: Seq<int>) -> Seq<int> {
    Seq::new(r.len(), |k: int| c[r[k]].data as int)
}

/// Entry `k` of a ring of lengths, for positions that go round once more.
pub open spec fn at(l: Seq<int>, k: int) -> int {
    if k < l.len() {
        l[k]
    } else {
        l[k - l.len()]
    }
}

/// How much the length at position `k` exceeds the one before it.
pub open spec fn rise(l: Seq<int>, k: int) -> int {
    at(l, k) - at(l, k - 1)
}

/// The position of `k` on the ring.
pub open spec fn wrap(size: int, k: int) -> int {
    if k < size {
        k
    } else {
        k - size
    }
}

/// No length is less than the one before it, all round the ring: all the
/// lengths are equal.
pub open spec fn level(l: Seq<int>) -> bool {
    forall|k: int| 1 <= k <= l.len() ==> #[trigger] rise(l, k) >= 0
}

/// The first valley of the ring: `p` is the first position from 1 on at
/// which the length decreases, `e` the first position after `p` at which it
/// increases, and `s` the last position before `e` at which it decreases.
/// The lengths at `s .. e` are equal, and less than those at `s - 1` and `e`.
pub open spec fn valley(l: Seq<int>, p: int, s: int, e: int) -> bool {
    &&& 1 <= p <= l.len()
    &&& p <= s < e <= p + l.len() - 1
    &&& rise(l, p) < 0
    &&& forall|k: int| 1 <= k < p ==> #[trigger] rise(l, k) >= 0
    &&& rise(l, e) > 0
    &&& forall|k: int| p < k < e ==> #[trigger] rise(l, k) <= 0
    &&& rise(l, s) < 0
    &&& forall|k: int| s < k < e ==> #[trigger] rise(l, k) >= 0
}

/// What `find_enclosed_edge_sequence` found on the ring of `head`.
pub open spec fn found_valley(
    c: Seq<Data<Span>>,
    head: int,
    start: int,
    end: int,
    n: int,
    length: int,
    ring: Seq<int>,
    p: int,
    s: int,
    e: int,
) -> bool {
    &&& is_ring(c, ring)
    &&& ring[0] == head
    &&& valley(ring_lens(c, ring), p, s, e)
    &&& start == ring[wrap(ring.len() as int, s)]
    &&& end == ring[wrap(ring.len() as int, e)]
    &&& n == e - s + 1
    &&& length == at(ring_lens(c, ring), s)
}

/// What `find_enclosed_edge_sequence` answers for the ring of `head`: nothing
/// when the ring is level, and its first valley when it is not.
pub open spec fn finds(c: Seq<Data<Span>>, head: int, r: Option<(Node, Node, usize, Span)>) -> bool {
    match r {
        None => exists|ring: Seq<int>|
            #[trigger] is_ring(c, ring) && ring[0] == head && level(ring_lens(c, ring)),
        Some(found) => exists|ring: Seq<int>, p: int, s: int, e: int|
            #[trigger] found_valley(
                c,
                head,
                found.0@,
                found.1@,
                found.2 as int,
                found.3 as int,
                ring,
                p,
                s,
                e,
            ),
    }
}

/// In a valley the lengths from `s` up to `e` are those of `s`.
pub proof fn lemma_valley_flat(l: Seq<int>, p: int, s: int, e: int, k: int)
    requires
        valley(l, p, s, e),
        s <= k < e,
    ensures
        at(l, k) == at(l, s),
    decreases k - s,
{
    if k > s {
        lemma_valley_flat(l, p, s, e, k - 1);
        assert(rise(l, k) >= 0);
        assert(rise(l, k) <= 0);
    }
}

/// Finds the first valley of the ring of `head`: the node `start` at which
/// it begins, the node `end` after its last edge, the number `n` of nodes
/// from `start` to `end`, and the length of its edges. There is none when
/// all the lengths of the ring are equal.
pub fn find_enclosed_edge_sequence(tracking: &Circular<Span>, head: Node) -> (r: Option<
    (Node, Node, usize, Span),
>)
    requires
        tracking.wf(),
        head@ < tracking@.len(),
    ensures
        finds(tracking@, head@, r),
{
    let nodes = tracking.iter(head);
    let size: usize = nodes.len();
    let ghost ring = node_ints(nodes@);
    let ghost l = ring_lens(tracking@, ring);
    proof {
        assert(ring[0] == head@);
        assert forall|k: int| 0 <= k < size implies #[trigger] l[k] == tracking@[nodes@[k]@].data by {}
        lemma_ring_nonempty(tracking@, ring);
        assert forall|j: int| 0 <= j < size implies 0 <= #[trigger] ring[j] < tracking@.len() by {
            lemma_ring_node(tracking@, ring, j);
        }
    }
    // the first position at which the length decreases
    let mut k: usize = 0;
    let mut found: bool = false;
    while k < size && !found
        invariant
            k <= size,
            size == nodes@.len(),
            size >= 1,
            ring == node_ints(nodes@),
            l == ring_lens(tracking@, ring),
            forall|j: int| 0 <= j < size ==> 0 <= #[trigger] ring[j] < tracking@.len(),
            forall|j: int| 1 <= j <= k && !(found && j == k) ==> #[trigger] rise(l, j) >= 0,
            found ==> 1 <= k <= size && rise(l, k as int) < 0,
        decreases size - k + (if found {
            0int
        } else {
            1int
        }),
    {
        let next: usize = if k + 1 < size {
            k + 1
        } else {
            0
        };
        proof {
            assert(0 <= ring[k as int] < tracking@.len());
            assert(0 <= ring[next as int] < tracking@.len());
        }
        let here: Span = tracking.node(nodes[k]).data;
        let there: Span = tracking.node(nodes[next]).data;
        proof {
            assert(at(l, k as int + 1) == there);
            assert(at(l, k as int) == here);
            assert(rise(l, k as int + 1) == there - here);
        }
        k = k + 1;
        if there < here {
            found = true;
        }
    }
    if !found {
        proof {
            assert(level(l));
            assert(is_ring(tracking@, ring) && ring[0] == head@ && level(ring_lens(tracking@, ring)));
            assert(finds(tracking@, head@, None));
        }
        return None;
    }
    let ghost p = k as int;
    let mut s_idx: usize = if k < size {
        k
    } else {
        0
    };
    let mut e_idx: usize = s_idx;
    let ghost mut s_pos: int = p;
    let ghost mut e_pos: int = p;
    let mut n: usize = 1;
    proof {
        assert(0 <= ring[s_idx as int] < tracking@.len());
    }
    let mut length: Span = tracking.node(nodes[s_idx]).data;
    let mut done: bool = false;
    while !done
        invariant
            size == nodes@.len(),
            size >= 1,
            ring == node_ints(nodes@),
            l == ring_lens(tracking@, ring),
            forall|j: int| 0 <= j < size ==> 0 <= #[trigger] ring[j] < tracking@.len(),
            1 <= p <= size,
            rise(l, p) < 0,
            forall|j: int| 1 <= j < p ==> #[trigger] rise(l, j) >= 0,
            p <= s_pos <= e_pos <= p + size - 1,
            s_idx == wrap(size as int, s_pos),
            e_idx == wrap(size as int, e_pos),
            s_idx < size,
            e_idx < size,
            n == e_pos - s_pos + 1,
            length == at(l, s_pos),
            length <= at(l, p),
            rise(l, s_pos) < 0,
            forall|j: int| s_pos <= j < e_pos ==> #[trigger] at(l, j) == length,
            forall|j: int| p < j < e_pos ==> #[trigger] rise(l, j) <= 0,
            forall|j: int| s_pos < j < e_pos ==> #[trigger] rise(l, j) >= 0,
            done ==> e_pos > s_pos && rise(l, e_pos) > 0,
        decreases p + size - e_pos + (if done {
            0int
        } else {
            1int
        }),
    {
        proof {
            assert(0 <= ring[e_idx as int] < tracking@.len());
        }
        let here: Span = tracking.node(nodes[e_idx]).data;
        proof {
            assert(at(l, e_pos) == here);
            if e_pos > s_pos {
                assert(at(l, e_pos - 1) == length);
                assert(rise(l, e_pos) == here - length);
            }
        }
        if here > length {
            done = true;
        } else {
            proof {
                // the position before `p` holds a longer edge, so the walk stops before it
                if e_pos == p + size - 1 {
                    assert(at(l, e_pos) == at(l, p - 1));
                    assert(rise(l, p) == at(l, p) - at(l, p - 1));
                }
            }
            if here < length {
                s_idx = e_idx;
                length = here;
                n = 1;
                proof {
                    assert(e_pos > s_pos);
                    s_pos = e_pos;
                }
            }
            e_idx = if e_idx + 1 < size {
                e_idx + 1
            } else {
                0
            };
            n = n + 1;
            proof {
                let old_e = e_pos;
                e_pos = e_pos + 1;
                assert forall|j: int| p < j < e_pos implies #[trigger] rise(l, j) <= 0 by {
                    if j == old_e {
                        if old_e > s_pos {
                            assert(at(l, old_e - 1) == length);
                        }
                    }
                }
                assert forall|j: int| s_pos < j < e_pos implies #[trigger] rise(l, j) >= 0 by {
                    if j == old_e {
                        assert(at(l, old_e - 1) == length);
                    }
                }
            }
        }
    }
    let start: Node = nodes[s_idx];
    let end: Node = nodes[e_idx];
    proof {
        assert(valley(l, p, s_pos, e_pos));
        assert(start@ == ring[wrap(ring.len() as int, s_pos)]);
        assert(end@ == ring[wrap(ring.len() as int, e_pos)]);
        assert(found_valley(
            tracking@,
            head@,
            start@,
            end@,
            n as int,
            length as int,
            ring,
            p,
            s_pos,
            e_pos,
        ));
        assert(exists|ring: Seq<int>, p: int, s: int, e: int|
            #[trigger] found_valley(
                tracking@,
                head@,
                start@,
                end@,
                n as int,
                length as int,
                ring,
                p,
                s,
                e,
            ));
    }
    let found = (start, end, n, length);
    proof {
        assert(found.0 == start && found.1 == end && found.2 == n && found.3 == length);
        assert(found_valley(
            tracking@,
            head@,
            found.0@,
            found.1@,
            found.2 as int,
            found.3 as int,
            ring,
            p,
            s_pos,
            e_pos,
        ));
        let opt: Option<(Node, Node, usize, Span)> = Some(found);
        assert(opt->0 == found);
        assert(finds(tracking@, head@, opt));
    }
    Some(found)
}

} // verus!

verus! {

/// A red clause of the plan for one face.
pub struct RedClause {
    /// The corners that the clause joins, counter-clockwise: the nodes of
    /// the ring that were cut out for it.
    pub slots: Vec<usize>,
    /// The number of variables of the clause.
    pub arity: usize,
    /// The number of its variables that must be mountains.
    pub mountains: usize,
    /// For a valley with an odd number of corners: the new corner that
    /// stands, on the ring, for what is left of the valley.
    pub spare: Option<usize>,
}

/// The lengths of a list, as integers.
pub open spec fn span_ints(l: Seq<Span>) -> Seq<int> {
    Seq::new(l.len(), |k: int| l[k] as int)
}

/// The slots of a list, as integers.
pub open spec fn slot_ints(l: Seq<usize>) -> Seq<int> {
    Seq::new(l.len(), |k: int| l[k] as int)
}

/// The number of spare corners that a plan makes.
pub open spec fn spares(plan: Seq<RedClause>) -> int
    decreases plan.len(),
{
    if plan.len() == 0 {
        0
    } else {
        spares(plan.drop_last()) + (if plan.last().spare is Some {
            1int
        } else {
            0int
        })
    }
}

/// The corners that a plan joins, clause after clause.
pub open spec fn joined(plan: Seq<RedClause>) -> Seq<int>
    decreases plan.len(),
{
    if plan.len() == 0 {
        Seq::empty()
    } else {
        joined(plan.drop_last()) + slot_ints(plan.last().slots@)
    }
}

/// A clause joins corners that exist when it is made, and its spare corner,
/// if it has one, is the next new corner.
pub open spec fn clause_ok(c: RedClause, corners: int) -> bool {
    &&& c.slots@.len() >= 1
    &&& c.arity == c.slots@.len() + (if c.spare is Some {
        1int
    } else {
        0int
    })
    &&& c.mountains <= c.arity
    &&& c.spare matches Some(x) ==> x == corners
    &&& forall|i: int| 0 <= i < c.slots@.len() ==> 0 <= #[trigger] c.slots@[i] < corners
}

/// A plan for a face of `m` corners: every clause is in order, every clause
/// but the last asks for mountains on half of its variables, the last one
/// for one more than half of them on the exterior face and one less on any
/// other, and every corner, given or spare, is joined by exactly one clause.
pub open spec fn plan_ok(m: int, exterior: bool, plan: Seq<RedClause>) -> bool {
    &&& plan.len() >= 1
    &&& forall|k: int|
        0 <= k < plan.len() ==> clause_ok(#[trigger] plan[k], m + spares(plan.take(k)))
    &&& forall|k: int| 0 <= k < plan.len() - 1 ==> (#[trigger] plan[k]).mountains == plan[k].arity / 2
    &&& plan.last().spare is None
    &&& plan.last().arity >= 2
    &&& plan.last().mountains == (if exterior {
        plan.last().arity / 2 + 1
    } else {
        plan.last().arity / 2 - 1
    })
    &&& joined(plan).len() == m + spares(plan)
    &&& distinct(joined(plan))
    &&& forall|x: int| 0 <= x < m + spares(plan) ==> #[trigger] listed(joined(plan), x)
}

/// A sequence rotated.
pub open spec fn rot(l: Seq<int>, k: int) -> Seq<int> {
    l.subrange(k, l.len() as int) + l.subrange(0, k)
}

/// Entry `i` of a ring of lengths read from position `k` is the entry at
/// position `k + i`.
proof fn lemma_rot_at(l: Seq<int>, k: int, i: int)
    requires
        0 <= k < 2 * l.len(),
        0 <= i < l.len(),
        k + i < 2 * l.len(),
    ensures
        rot(l, wrap(l.len() as int, k))[i] == at(l, k + i),
{
}

/// The valley read from the position before it: a longer edge, the equal
/// edges of the valley, a longer edge.
proof fn lemma_valley_rot(l0: Seq<int>, p: int, s: int, e: int)
    requires
        valley(l0, p, s, e),
    ensures
        ({
            let size = l0.len() as int;
            let n = e - s + 1;
            let l = rot(l0, wrap(size, s - 1));
            let length = at(l0, s);
            &&& 2 <= n <= size
            &&& 0 <= wrap(size, s - 1) < size
            &&& l.len() == size
            &&& l[0] > length
            &&& forall|i: int| 1 <= i < n ==> #[trigger] l[i] == length
            &&& n < size ==> l[n] > length && l[n] == at(l0, e)
        }),
{
    let size = l0.len() as int;
    let n = e - s + 1;
    let k0 = wrap(size, s - 1);
    let l = rot(l0, k0);
    let length = at(l0, s);
    lemma_rot_at(l0, s - 1, 0);
    assert(rise(l0, s) == at(l0, s) - at(l0, s - 1));
    assert forall|i: int| 1 <= i < n implies #[trigger] l[i] == length by {
        lemma_rot_at(l0, s - 1, i);
        lemma_valley_flat(l0, p, s, e, s - 1 + i);
    }
    if n < size {
        lemma_rot_at(l0, s - 1, n);
        lemma_valley_flat(l0, p, s, e, e - 1);
        assert(rise(l0, e) == at(l0, e) - at(l0, e - 1));
    }
}

/// One longer edge and then equal edges all round a ring of even length:
/// the alternating sum is not zero.
proof fn lemma_round_valley(l: Seq<int>, length: int)
    requires
        l.len() >= 2,
        l.len() % 2 == 0,
        l[0] > length,
        forall|i: int| 1 <= i < l.len() ==> #[trigger] l[i] == length,
    ensures
        alt_sum(l) != 0,
{
    let size = l.len() as int;
    assert(l =~= seq![l[0]] + run(length, size - 1));
    lemma_alt_concat(seq![l[0]], run(length, size - 1));
    lemma_alt_run(length, size - 1);
    assert(alt_sum(seq![l[0]]) == l[0]) by {
        reveal_with_fuel(alt_sum, 2);
        assert(seq![l[0]].drop_first() =~= Seq::<int>::empty());
    }
}

/// Reading a ring of even length from another position keeps its mass, and
/// keeps its alternating sum zero.
proof fn lemma_rot_sums(l0: Seq<int>, k: int)
    requires
        0 <= k < l0.len(),
        l0.len() % 2 == 0,
        alt_sum(l0) == 0,
    ensures
        alt_sum(rot(l0, k)) == 0,
        mass(rot(l0, k)) == mass(l0),
        rot(l0, k).len() == l0.len(),
{
    let front = l0.subrange(0, k);
    let back = l0.subrange(k, l0.len() as int);
    assert(l0 =~= front + back);
    lemma_alt_rotate(front, back);
    lemma_mass_concat(front, back);
    lemma_mass_concat(back, front);
}

/// A valley of a ring of even length whose alternating sum is zero does not
/// go all round the ring.
proof fn lemma_valley_proper(l0: Seq<int>, p: int, s: int, e: int)
    requires
        valley(l0, p, s, e),
        l0.len() % 2 == 0,
        alt_sum(l0) == 0,
    ensures
        ({
            let size = l0.len() as int;
            let n = e - s + 1;
            let l = rot(l0, wrap(size, s - 1));
            let length = at(l0, s);
            &&& 2 <= n < size
            &&& l =~= seq![l[0]] + run(length, n - 1) + seq![l[n]] + l.subrange(n + 1, size)
            &&& alt_sum(l) == 0
            &&& mass(l) == mass(l0)
        }),
{
    let size = l0.len() as int;
    let n = e - s + 1;
    let k0 = wrap(size, s - 1);
    let l = rot(l0, k0);
    let length = at(l0, s);
    lemma_valley_rot(l0, p, s, e);
    lemma_rot_sums(l0, k0);
    if n >= size {
        lemma_round_valley(l, length);
    }
    let shape = seq![l[0]] + run(length, n - 1) + seq![l[n]] + l.subrange(n + 1, size);
    assert(shape.len() == size);
    assert forall|i: int| 0 <= i < size implies l[i] == shape[i] by {
        if 1 <= i < n {
            assert(l[i] == length);
        }
    }
}

/// The nodes of the valley on the ring read from the node before it.
proof fn lemma_valley_nodes(c: Seq<Data<Span>>, ring: Seq<int>, s: int, e: int)
    requires
        is_ring(c, ring),
        1 <= s < e,
        e - s + 1 < ring.len(),
        e <= 2 * ring.len() - 1,
    ensures
        ({
            let size = ring.len() as int;
            let n = e - s + 1;
            let k0 = wrap(size, s - 1);
            let r = rotated(ring, k0);
            &&& 0 <= k0 < size
            &&& is_ring(c, r)
            &&& r.len() == size
            &&& r[0] == ring[k0]
            &&& r[1] == ring[wrap(size, s)]
            &&& r[n] == ring[wrap(size, e)]
            &&& ring_lens(c, r) == rot(ring_lens(c, ring), k0)
        }),
{
    let size = ring.len() as int;
    let k0 = wrap(size, s - 1);
    lemma_ring_rotated(c, ring, k0);
    assert(ring_lens(c, rotated(ring, k0)) =~= rot(ring_lens(c, ring), k0));
}

/// Closing the ring over a valley with an even number of corners keeps its
/// alternating sum, and does not add to its mass.
proof fn lemma_even_step(a: int, s: int, n: int, b: int, rest: Seq<int>)
    requires
        n >= 2,
        n % 2 == 0,
    ensures
        alt_sum(seq![a - s + b] + rest) == alt_sum(seq![a] + run(s, n - 1) + seq![b] + rest),
        mass(seq![a - s + b] + rest) <= mass(seq![a] + run(s, n - 1) + seq![b] + rest),
        abs(a) + abs(s) + abs(b) <= mass(seq![a] + run(s, n - 1) + seq![b] + rest),
{
    let x = seq![a] + run(s, n - 1) + seq![b];
    lemma_alt_concat(x, rest);
    lemma_alt_concat(seq![a] + run(s, n - 1), seq![b]);
    lemma_alt_concat(seq![a], run(s, n - 1));
    lemma_alt_run(s, n - 1);
    lemma_alt_concat(seq![a - s + b], rest);
    assert(alt_sum(seq![a]) == a && alt_sum(seq![b]) == b && alt_sum(seq![a - s + b]) == a - s + b) by {
        reveal_with_fuel(alt_sum, 2);
        assert(seq![a].drop_first() =~= Seq::<int>::empty());
        assert(seq![b].drop_first() =~= Seq::<int>::empty());
        assert(seq![a - s + b].drop_first() =~= Seq::<int>::empty());
    }
    lemma_mass_concat(x, rest);
    lemma_mass_concat(seq![a] + run(s, n - 1), seq![b]);
    lemma_mass_concat(seq![a], run(s, n - 1));
    lemma_mass_run(s, n - 1);
    lemma_mass_concat(seq![a - s + b], rest);
    lemma_mass_nonnegative(rest);
    assert(mass(seq![a]) == abs(a) && mass(seq![b]) == abs(b) && mass(seq![a - s + b]) == abs(
        a - s + b,
    )) by {
        reveal_with_fuel(mass, 2);
        assert(seq![a].drop_first() =~= Seq::<int>::empty());
        assert(seq![b].drop_first() =~= Seq::<int>::empty());
        assert(seq![a - s + b].drop_first() =~= Seq::<int>::empty());
    }
}

/// Closing the ring over a valley with an odd number of corners, with a
/// spare corner in its place, keeps its alternating sum, and does not add to
/// its mass.
proof fn lemma_odd_step(a: int, s: int, n: int, b: int, rest: Seq<int>)
    requires
        n >= 2,
        n % 2 == 1,
    ensures
        alt_sum(seq![a, b] + rest) == alt_sum(seq![a] + run(s, n - 1) + seq![b] + rest),
        mass(seq![a, b] + rest) <= mass(seq![a] + run(s, n - 1) + seq![b] + rest),
{
    let x = seq![a] + run(s, n - 1) + seq![b];
    lemma_alt_concat(x, rest);
    lemma_alt_concat(seq![a] + run(s, n - 1), seq![b]);
    lemma_alt_concat(seq![a], run(s, n - 1));
    lemma_alt_run(s, n - 1);
    assert(seq![a, b] =~= seq![a] + seq![b]);
    lemma_alt_concat(seq![a] + seq![b], rest);
    lemma_alt_concat(seq![a], seq![b]);
    assert(alt_sum(seq![a]) == a && alt_sum(seq![b]) == b) by {
        reveal_with_fuel(alt_sum, 2);
        assert(seq![a].drop_first() =~= Seq::<int>::empty());
        assert(seq![b].drop_first() =~= Seq::<int>::empty());
    }
    lemma_mass_concat(x, rest);
    lemma_mass_concat(seq![a] + run(s, n - 1), seq![b]);
    lemma_mass_concat(seq![a], run(s, n - 1));
    lemma_mass_run(s, n - 1);
    lemma_mass_concat(seq![a] + seq![b], rest);
    lemma_mass_concat(seq![a], seq![b]);
    lemma_mass_nonnegative(rest);
    lemma_mass_nonnegative(run(s, n - 1));
}

} // verus!

verus! {

/// What the shrink procedure keeps between two steps: the ring has an even
/// number of corners, its alternating sum is zero and its mass bounded, and
/// every node of the arena is either on the ring or joined by a clause.
pub open spec fn shrink_inv(c: Seq<Data<Span>>, ring: Seq<int>, used: Seq<int>) -> bool {
    &&& linked(c)
    &&& is_ring(c, ring)
    &&& ring.len() % 2 == 0
    &&& alt_sum(ring_lens(c, ring)) == 0
    &&& mass(ring_lens(c, ring)) <= mass_bound()
    &&& distinct(used)
    &&& forall|x: int| #[trigger] listed(used, x) ==> 0 <= x < c.len() && !listed(ring, x)
    &&& forall|x: int| 0 <= x < c.len() && !listed(ring, x) ==> #[trigger] listed(used, x)
}

/// Every node of a ring is a node of the arena.
proof fn lemma_ring_listed<T>(c: Seq<Data<T>>, ring: Seq<int>, x: int)
    requires
        is_ring(c, ring),
        listed(ring, x),
    ensures
        0 <= x < c.len(),
{
    let k = choose|k: int| 0 <= k < ring.len() && #[trigger] ring[k] == x;
    lemma_ring_node(c, ring, k);
}

/// The nodes of a valley leave the ring: what is left of the ring, and what
/// the clauses have joined with the valley added.
proof fn lemma_cut_nodes(ring: Seq<int>, used: Seq<int>, k0: int, n: int, len: int)
    requires
        distinct(ring),
        distinct(used),
        forall|x: int| #[trigger] listed(used, x) ==> 0 <= x < len && !listed(ring, x),
        forall|x: int| 0 <= x < len && !listed(ring, x) ==> #[trigger] listed(used, x),
        forall|x: int| listed(ring, x) ==> 0 <= x < len,
        0 <= k0 < ring.len(),
        1 <= n < ring.len(),
    ensures
        ({
            let r = rotated(ring, k0);
            let cut = r.subrange(1, n + 1);
            let main = seq![r[0]] + r.subrange(n + 1, r.len() as int);
            let more = used + cut;
            &&& distinct(more)
            &&& forall|x: int| #[trigger] listed(more, x) ==> 0 <= x < len && !listed(main, x)
            &&& forall|x: int| 0 <= x < len && !listed(main, x) ==> #[trigger] listed(more, x)
        }),
{
    let r = rotated(ring, k0);
    let size = r.len() as int;
    let cut = r.subrange(1, n + 1);
    let rest = r.subrange(n + 1, size);
    let main = seq![r[0]] + rest;
    let more = used + cut;
    assert(r =~= seq![r[0]] + cut + rest);
    assert(distinct(r)) by {
        reveal(distinct);
        assert forall|i: int, j: int| 0 <= i < j < r.len() implies r[i] != r[j] by {
            let a = if i + k0 < size {
                i + k0
            } else {
                i + k0 - size
            };
            let b = if j + k0 < size {
                j + k0
            } else {
                j + k0 - size
            };
            crate::circular::lemma_distinct(ring, a, b);
        }
    }
    lemma_distinct_parts(seq![r[0]] + cut, rest);
    lemma_distinct_parts(seq![r[0]], cut);
    assert forall|x: int| listed(r, x) <==> listed(main, x) || listed(cut, x) by {
        lemma_listed_concat(seq![r[0]] + cut, rest, x);
        lemma_listed_concat(seq![r[0]], cut, x);
        lemma_listed_concat(seq![r[0]], rest, x);
    }
    assert forall|x: int| !(listed(main, x) && listed(cut, x)) by {
        lemma_listed_concat(seq![r[0]] + cut, rest, x);
        lemma_listed_concat(seq![r[0]], cut, x);
        lemma_listed_concat(seq![r[0]], rest, x);
        if listed(cut, x) {
            assert(listed(seq![r[0]] + cut, x));
        }
    }
    assert forall|x: int| #[trigger] listed(used, x) implies !listed(cut, x) by {
        crate::circular::lemma_listed_rotated(ring, k0, x);
    }
    lemma_distinct_concat(used, cut);
    assert forall|x: int| #[trigger] listed(more, x) implies 0 <= x < len && !listed(main, x) by {
        lemma_listed_concat(used, cut, x);
        crate::circular::lemma_listed_rotated(ring, k0, x);
    }
    assert forall|x: int| 0 <= x < len && !listed(main, x) implies #[trigger] listed(more, x) by {
        lemma_listed_concat(used, cut, x);
        crate::circular::lemma_listed_rotated(ring, k0, x);
        if !listed(cut, x) {
            assert(!listed(r, x));
            assert(listed(used, x));
        }
    }
}

/// The links and lengths of the list once the nodes of a valley are cut out
/// of the ring.
proof fn lemma_cut(c0: Seq<Data<Span>>, ring: Seq<int>, p: int, s: int, e: int)
    requires
        linked(c0),
        is_ring(c0, ring),
        ring.len() % 2 == 0,
        alt_sum(ring_lens(c0, ring)) == 0,
        valley(ring_lens(c0, ring), p, s, e),
    ensures
        ({
            let size = ring.len() as int;
            let n = e - s + 1;
            let r = rotated(ring, wrap(size, s - 1));
            let c1 = spliced(c0, r[n], r[1]);
            let cut = r.subrange(1, n + 1);
            let main = seq![r[0]] + r.subrange(n + 1, size);
            let l = ring_lens(c0, r);
            let length = at(ring_lens(c0, ring), s);
            &&& 2 <= n < size
            &&& 0 <= wrap(size, s - 1) < size
            &&& r.len() == size
            &&& is_ring(c0, r)
            &&& r[1] == ring[wrap(size, s)]
            &&& r[n] == ring[wrap(size, e)]
            &&& pv(c0, r[1]) == r[0]
            &&& linked(c1)
            &&& c1.len() == c0.len()
            &&& forall|x: int| 0 <= x < c0.len() ==> (#[trigger] c1[x]).data == c0[x].data
            &&& is_ring(c1, cut)
            &&& is_ring(c1, main)
            &&& l[0] > length
            &&& l[n] > length
            &&& l =~= seq![l[0]] + run(length, n - 1) + seq![l[n]] + l.subrange(n + 1, size)
            &&& ring_lens(c1, main) =~= seq![l[0]] + l.subrange(n + 1, size)
            &&& alt_sum(l) == 0
            &&& mass(l) == mass(ring_lens(c0, ring))
        }),
{
    let size = ring.len() as int;
    let n = e - s + 1;
    let k0 = wrap(size, s - 1);
    let r = rotated(ring, k0);
    let l0 = ring_lens(c0, ring);
    lemma_valley_proper(l0, p, s, e);
    lemma_valley_rot(l0, p, s, e);
    lemma_valley_nodes(c0, ring, s, e);
    let c1 = spliced(c0, r[n], r[1]);
    let main = seq![r[0]] + r.subrange(n + 1, size);
    let l = ring_lens(c0, r);
    lemma_ring_prev(c0, r, 1);
    lemma_ring_split(c0, r, n);
    lemma_ring_node(c0, r, n);
    lemma_ring_node(c0, r, 1);
    lemma_spliced_linked(c0, r[n], r[1]);
    lemma_spliced_data(c0, r[n], r[1]);
    assert forall|k: int| 0 <= k < main.len() implies ring_lens(c1, main)[k] == (seq![l[0]]
        + l.subrange(n + 1, size))[k] by {
        if k == 0 {
            lemma_ring_node(c0, r, 0);
        } else {
            assert(main[k] == r[k + n]);
            lemma_ring_node(c0, r, k + n);
        }
    }
}

/// What a plan with one more clause joins.
proof fn lemma_plan_push(plan: Seq<RedClause>, c: RedClause)
    ensures
        spares(plan.push(c)) == spares(plan) + (if c.spare is Some {
            1int
        } else {
            0int
        }),
        joined(plan.push(c)) == joined(plan) + slot_ints(c.slots@),
        forall|k: int| 0 <= k <= plan.len() ==> #[trigger] plan.push(c).take(k) == plan.take(k),
        plan.push(c).take(plan.len() as int) == plan,
{
    assert(plan.push(c).drop_last() =~= plan);
    assert forall|k: int| 0 <= k <= plan.len() implies #[trigger] plan.push(c).take(k)
        == plan.take(k) by {
        assert(plan.push(c).take(k) =~= plan.take(k));
    }
    assert(plan.take(plan.len() as int) =~= plan);
}

/// The nodes of a list as slots.
fn node_slots(nodes: &Vec<Node>) -> (r: Vec<usize>)
    ensures
        slot_ints(r@) == node_ints(nodes@),
{
    let mut out: Vec<usize> = Vec::new();
    let mut k: usize = 0;
    while k < nodes.len()
        invariant
            k <= nodes@.len(),
            out@.len() == k,
            forall|i: int| 0 <= i < k ==> out@[i] == (#[trigger] nodes@[i]).0,
        decreases nodes@.len() - k,
    {
        out.push(nodes[k].0);
        k += 1;
    }
    proof {
        assert(slot_ints(out@) =~= node_ints(nodes@));
    }
    out
}

} // verus!

verus! {

/// The nodes `0 .. m`, in order.
pub open spec fn upto(m: int) -> Seq<int> {
    Seq::new(m as nat, |i: int| i)
}

/// One more node at the end of the ring of the nodes `0 .. k`.
proof fn lemma_ring_grow(c0: Seq<Data<Span>>, data: Span, k: int)
    requires
        linked(c0),
        c0.len() == k,
        1 <= k < usize::MAX,
        is_ring(c0, upto(k)),
    ensures
        ({
            let c1 = c0.push(Data { data, prev: Node(k as usize), next: Node(k as usize) });
            let c2 = spliced(c1, k - 1, k);
            is_ring(c2, upto(k + 1))
        }),
{
    let c1 = c0.push(Data { data, prev: Node(k as usize), next: Node(k as usize) });
    let c2 = spliced(c1, k - 1, k);
    let ring = upto(k);
    lemma_added(c0, data, ring);
    // read the ring from its last node, put the new node after it, and read it from its
    // first node again
    lemma_ring_rotated(c1, ring, k - 1);
    let r = rotated(ring, k - 1);
    assert(r[0] == k - 1);
    assert forall|i: int| 0 <= i < r.len() implies #[trigger] r[i] != k by {
        lemma_ring_node(c0, ring, if i == 0 {
            k - 1
        } else {
            i - 1
        });
    }
    lemma_ring_insert(c1, r, k);
    let q = seq![r[0], k] + r.subrange(1, r.len() as int);
    if k == 1 {
        lemma_ring_rotated(c2, q, 0);
        assert(rotated(q, 0) =~= upto(k + 1));
    } else {
        lemma_ring_rotated(c2, q, 2);
        assert(rotated(q, 2) =~= upto(k + 1));
    }
}

/// Puts the lengths of the corners of a face on a ring, in order, and
/// returns the ring with its last node.
fn ring_of(lens: &Vec<Span>) -> (r: (Circular<Span>, Node))
    requires
        lens@.len() >= 1,
    ensures
        r.0.wf(),
        r.0@.len() == lens@.len(),
        r.1@ == lens@.len() - 1,
        is_ring(r.0@, upto(lens@.len() as int)),
        ring_lens(r.0@, upto(lens@.len() as int)) == span_ints(lens@),
{
    let mut tracking: Circular<Span> = Circular::new();
    let mut prev: Node = tracking.add_node(lens[0]);
    let mut k: usize = 1;
    proof {
        lemma_ring_single(tracking@, 0);
        assert(seq![0int] =~= upto(1));
    }
    while k < lens.len()
        invariant
            1 <= k <= lens@.len(),
            tracking.wf(),
            tracking@.len() == k,
            prev@ == k - 1,
            is_ring(tracking@, upto(k as int)),
            forall|i: int| 0 <= i < k ==> (#[trigger] tracking@[i]).data == lens@[i],
        decreases lens@.len() - k,
    {
        let ghost c0 = tracking@;
        let node = tracking.add_node(lens[k]);
        let total: usize = tracking.len();
        proof {
            lemma_ring_grow(c0, lens@[k as int], k as int);
        }
        let ghost c1 = tracking@;
        tracking.splice(prev, node);
        proof {
            lemma_spliced_data(c1, prev@, node@);
        }
        prev = node;
        k += 1;
    }
    proof {
        assert(ring_lens(tracking@, upto(lens@.len() as int)) =~= span_ints(lens@));
    }
    (tracking, prev)
}

/// Changing what the first node of a ring holds changes the first of its
/// lengths.
proof fn lemma_set_first(c1: Seq<Data<Span>>, c2: Seq<Data<Span>>, main: Seq<int>, new: Span)
    requires
        linked(c1),
        is_ring(c1, main),
        c2 == c1.update(
            main[0],
            Data { data: new, prev: c1[main[0]].prev, next: c1[main[0]].next },
        ),
    ensures
        linked(c2),
        is_ring(c2, main),
        ring_lens(c2, main) =~= seq![new as int] + ring_lens(c1, main).subrange(
            1,
            main.len() as int,
        ),
{
    lemma_ring_nonempty(c1, main);
    lemma_data_set(c1, main[0], new, main);
    assert forall|k: int| 0 <= k < main.len() implies ring_lens(c2, main)[k] == (seq![new as int]
        + ring_lens(c1, main).subrange(1, main.len() as int))[k] by {
        lemma_ring_node(c1, main, k);
        if k > 0 {
            lemma_distinct(main, 0, k);
        }
    }
}

/// Which nodes a ring with a spare node after its first node holds.
proof fn lemma_spare_nodes(main: Seq<int>, x: int, more: Seq<int>, len: int)
    requires
        main.len() >= 1,
        x == len,
        forall|y: int| listed(main, y) ==> 0 <= y < len,
        forall|y: int| #[trigger] listed(more, y) ==> 0 <= y < len && !listed(main, y),
        forall|y: int| 0 <= y < len && !listed(main, y) ==> #[trigger] listed(more, y),
    ensures
        ({
            let ring = seq![main[0], x] + main.subrange(1, main.len() as int);
            &&& forall|y: int| #[trigger] listed(more, y) ==> 0 <= y < len + 1 && !listed(ring, y)
            &&& forall|y: int| 0 <= y < len + 1 && !listed(ring, y) ==> #[trigger] listed(more, y)
        }),
{
    let ring = seq![main[0], x] + main.subrange(1, main.len() as int);
    let two = seq![main[0], x];
    let one = seq![main[0]];
    let tail = main.subrange(1, main.len() as int);
    assert(main =~= one + tail);
    assert forall|y: int| listed(ring, y) <==> listed(main, y) || y == x by {
        lemma_listed_concat(two, tail, y);
        lemma_listed_concat(one, tail, y);
        if y == x {
            assert(two[1] == y);
        }
        if y == main[0] {
            assert(two[0] == y);
            assert(one[0] == y);
        }
        if listed(two, y) {
            let k = choose|k: int| 0 <= k < two.len() && #[trigger] two[k] == y;
        }
        if listed(one, y) {
            let k = choose|k: int| 0 <= k < one.len() && #[trigger] one[k] == y;
        }
    }
}

/// A spare corner takes its place on the ring, after the first node.
proof fn lemma_spare(c1: Seq<Data<Span>>, main: Seq<int>, b: Span)
    requires
        linked(c1),
        is_ring(c1, main),
        c1.len() < usize::MAX,
    ensures
        ({
            let x = c1.len() as int;
            let c2 = c1.push(Data { data: b, prev: Node(x as usize), next: Node(x as usize) });
            let c3 = spliced(c2, main[0], x);
            let ring = seq![main[0], x] + main.subrange(1, main.len() as int);
            &&& is_ring(c3, ring)
            &&& c3.len() == c1.len() + 1
            &&& ring.len() == main.len() + 1
            &&& ring_lens(c3, ring) =~= seq![ring_lens(c1, main)[0], b as int] + ring_lens(
                c1,
                main,
            ).subrange(1, main.len() as int)
        }),
{
    let x = c1.len() as int;
    let c2 = c1.push(Data { data: b, prev: Node(x as usize), next: Node(x as usize) });
    let c3 = spliced(c2, main[0], x);
    let ring = seq![main[0], x] + main.subrange(1, main.len() as int);
    lemma_ring_nonempty(c1, main);
    lemma_added(c1, b, main);
    assert forall|k: int| 0 <= k < main.len() implies #[trigger] main[k] != x by {
        lemma_ring_node(c1, main, k);
    }
    lemma_ring_insert(c2, main, x);
    lemma_spliced_data(c2, main[0], x);
    assert forall|k: int| 0 <= k < ring.len() implies ring_lens(c3, ring)[k] == (seq![
        ring_lens(c1, main)[0],
        b as int,
    ] + ring_lens(c1, main).subrange(1, main.len() as int))[k] by {
        if k == 0 {
            lemma_ring_node(c1, main, 0);
        } else if k >= 2 {
            assert(ring[k] == main[k - 1]);
            lemma_ring_node(c1, main, k - 1);
        }
    }
}

/// The slots of a clause are nodes of the arena.
proof fn lemma_clause_slots(c: Seq<Data<Span>>, nodes: Seq<int>, slots: Seq<usize>)
    requires
        is_ring(c, nodes),
        slot_ints(slots) == nodes,
    ensures
        slots.len() >= 1,
        forall|i: int| 0 <= i < slots.len() ==> 0 <= #[trigger] slots[i] < c.len(),
{
    lemma_ring_nonempty(c, nodes);
    assert(slot_ints(slots).len() == slots.len());
    assert forall|i: int| 0 <= i < slots.len() implies 0 <= #[trigger] slots[i] < c.len() by {
        lemma_ring_node(c, nodes, i);
        assert(slot_ints(slots)[i] == slots[i]);
    }
}

/// What a clause of a plan says, in mathematical terms.
pub struct ClauseView {
    pub slots: Seq<int>,
    pub arity: int,
    pub mountains: int,
    pub spare: Option<int>,
}

impl View for RedClause {
    type V = ClauseView;

    open spec fn view(&self) -> ClauseView {
        ClauseView {
            slots: slot_ints(self.slots@),
            arity: self.arity as int,
            mountains: self.mountains as int,
            spare: match self.spare {
                Some(x) => Some(x as int),
                None => None,
            },
        }
    }
}

/// What the clauses of a plan say.
pub open spec fn views(plan: Seq<RedClause>) -> Seq<ClauseView> {
    Seq::new(plan.len(), |k: int| plan[k]@)
}

/// The corners of a face that no clause has joined yet: the effective
/// length of every corner, given or spare, and the corners that are left on
/// the ring, counter-clockwise from its head.
pub struct RingState {
    pub lens: Seq<int>,
    pub ring: Seq<int>,
}

/// The state that a list holds for the ring `ring`.
pub open spec fn state_of(c: Seq<Data<Span>>, ring: Seq<int>) -> RingState {
    RingState { lens: Seq::new(c.len(), |i: int| c[i].data as int), ring }
}

/// The lengths along the ring.
pub open spec fn along(st: RingState) -> Seq<int> {
    Seq::new(st.ring.len(), |k: int| st.lens[st.ring[k]])
}

/// The ring has a valley.
pub open spec fn has_valley(l: Seq<int>) -> bool {
    exists|p: int, s: int, e: int| valley(l, p, s, e)
}

/// The first valley of the ring.
pub open spec fn first_valley(l: Seq<int>) -> (int, int, int) {
    choose|v: (int, int, int)| valley(l, v.0, v.1, v.2)
}

/// One step of the procedure, for the valley from position `s` to position
/// `e`: the `n = e - s + 1` corners of the valley go to a clause. For even
/// `n` the clause has `n` variables, and the corner before the valley takes
/// the length of its edge, less that of the valley, plus that of the edge
/// after the valley. For odd `n` the clause has one variable more, and a
/// spare corner with the length of the edge after the valley takes the place
/// of the valley on the ring. The corner before the valley becomes the head.
pub open spec fn cut_at(st: RingState, s: int, e: int) -> (ClauseView, RingState) {
    let size = st.ring.len() as int;
    let n = e - s + 1;
    let r = rotated(st.ring, wrap(size, s - 1));
    let cut = r.subrange(1, n + 1);
    let rest = r.subrange(n + 1, size);
    if n % 2 == 0 {
        (
            ClauseView { slots: cut, arity: n, mountains: n / 2, spare: None },
            RingState {
                lens: st.lens.update(r[0], st.lens[r[0]] - st.lens[r[1]] + st.lens[r[n]]),
                ring: seq![r[0]] + rest,
            },
        )
    } else {
        let x = st.lens.len() as int;
        (
            ClauseView { slots: cut, arity: n + 1, mountains: (n + 1) / 2, spare: Some(x) },
            RingState { lens: st.lens.push(st.lens[r[n]]), ring: seq![r[0], x] + rest },
        )
    }
}

/// The clause of the corners that are left when the ring has no valley.
pub open spec fn last_clause(st: RingState, exterior: bool) -> ClauseView {
    let left = st.ring.len() as int;
    ClauseView {
        slots: st.ring,
        arity: left,
        mountains: if exterior {
            left / 2 + 1
        } else {
            left / 2 - 1
        },
        spare: None,
    }
}

/// The clauses of the shrink procedure from a state on: while the ring has
/// a valley, the clause of its first valley; then the clause of what is
/// left.
pub open spec fn shrunk(st: RingState, exterior: bool) -> Seq<ClauseView>
    decreases st.ring.len(),
{
    let l = along(st);
    if !has_valley(l) {
        seq![last_clause(st, exterior)]
    } else {
        let v = first_valley(l);
        let step = cut_at(st, v.1, v.2);
        if step.1.ring.len() < st.ring.len() {
            seq![step.0] + shrunk(step.1, exterior)
        } else {
            seq![step.0]
        }
    }
}

/// The state at the start: the corners with their lengths, on the ring from
/// the last corner on.
pub open spec fn initial(lens: Seq<int>) -> RingState {
    RingState { lens, ring: rotated(upto(lens.len() as int), lens.len() - 1) }
}

/// The lengths along a ring are those that its nodes hold.
pub proof fn lemma_along(c: Seq<Data<Span>>, ring: Seq<int>)
    requires
        is_ring(c, ring),
    ensures
        along(state_of(c, ring)) == ring_lens(c, ring),
{
    assert forall|k: int| 0 <= k < ring.len() implies along(state_of(c, ring))[k] == ring_lens(
        c,
        ring,
    )[k] by {
        lemma_ring_node(c, ring, k);
    }
    assert(along(state_of(c, ring)) =~= ring_lens(c, ring));
}

/// A ring has one first valley.
pub proof fn lemma_valley_unique(l: Seq<int>, p: int, s: int, e: int, p2: int, s2: int, e2: int)
    requires
        valley(l, p, s, e),
        valley(l, p2, s2, e2),
    ensures
        p == p2,
        s == s2,
        e == e2,
{
    if p < p2 {
        assert(rise(l, p) >= 0);
    }
    if p2 < p {
        assert(rise(l, p2) >= 0);
    }
    if e < e2 {
        assert(rise(l, e) <= 0);
    }
    if e2 < e {
        assert(rise(l, e2) <= 0);
    }
    if s < s2 {
        assert(rise(l, s2) >= 0);
    }
    if s2 < s {
        assert(rise(l, s) >= 0);
    }
}

/// With a valley, the procedure makes the clause of the valley and goes on
/// from the state after it.
pub proof fn lemma_shrunk_step(st: RingState, exterior: bool, p: int, s: int, e: int)
    requires
        valley(along(st), p, s, e),
        cut_at(st, s, e).1.ring.len() < st.ring.len(),
    ensures
        shrunk(st, exterior) == seq![cut_at(st, s, e).0] + shrunk(cut_at(st, s, e).1, exterior),
{
    let l = along(st);
    let w = (p, s, e);
    assert(valley(l, w.0, w.1, w.2));
    let v = first_valley(l);
    lemma_valley_unique(l, p, s, e, v.0, v.1, v.2);
}

/// Without a valley, the procedure makes the last clause.
pub proof fn lemma_shrunk_level(st: RingState, exterior: bool)
    requires
        level(along(st)),
    ensures
        shrunk(st, exterior) == seq![last_clause(st, exterior)],
{
    let l = along(st);
    if has_valley(l) {
        let (p, s, e) = choose|p: int, s: int, e: int| valley(l, p, s, e);
        assert(rise(l, p) >= 0);
    }
}

/// Cuts the corners of a valley out of the ring into a clause, and closes
/// the ring over the gap.
fn cut_valley(
    tracking: &mut Circular<Span>,
    head: Node,
    start: Node,
    end: Node,
    n: usize,
    length: Span,
    Ghost(ring): Ghost<Seq<int>>,
    Ghost(used): Ghost<Seq<int>>,
    Ghost(p): Ghost<int>,
    Ghost(s): Ghost<int>,
    Ghost(e): Ghost<int>,
) -> (r: (RedClause, Node))
    requires
        old(tracking).wf(),
        head@ == ring[0],
        shrink_inv(old(tracking)@, ring, used),
        used.len() + ring.len() == old(tracking)@.len(),
        found_valley(old(tracking)@, head@, start@, end@, n as int, length as int, ring, p, s, e),
    ensures
        final(tracking).wf(),
        r.0@ == cut_at(state_of(old(tracking)@, ring), s, e).0,
        state_of(final(tracking)@, cut_at(state_of(old(tracking)@, ring), s, e).1.ring) == cut_at(
            state_of(old(tracking)@, ring),
            s,
            e,
        ).1,
        r.1@ == cut_at(state_of(old(tracking)@, ring), s, e).1.ring[0],
        shrink_inv(
            final(tracking)@,
            cut_at(state_of(old(tracking)@, ring), s, e).1.ring,
            used + slot_ints(r.0.slots@),
        ),
        cut_at(state_of(old(tracking)@, ring), s, e).1.ring.len() < ring.len(),
        used.len() + r.0.slots@.len() + cut_at(state_of(old(tracking)@, ring), s, e).1.ring.len()
            == final(tracking)@.len(),
        final(tracking)@.len() == old(tracking)@.len() + (if r.0.spare is Some {
            1int
        } else {
            0int
        }),
        clause_ok(r.0, old(tracking)@.len() as int),
        r.0.mountains == r.0.arity / 2,
{
    let ghost c0 = tracking@;
    let ghost st = state_of(c0, ring);
    let ghost size = ring.len() as int;
    let ghost k0 = wrap(size, s - 1);
    let ghost r = rotated(ring, k0);
    let ghost cut = r.subrange(1, n + 1);
    let ghost main = seq![r[0]] + r.subrange(n + 1, size);
    let ghost l = ring_lens(c0, r);
    let ghost more = used + cut;
    proof {
        lemma_ring_nonempty(c0, ring);
        lemma_ring_node(c0, ring, 0);
        lemma_cut(c0, ring, p, s, e);
        assert forall|x: int| listed(ring, x) implies 0 <= x < c0.len() by {
            lemma_ring_listed(c0, ring, x);
        }
        lemma_cut_nodes(ring, used, k0, n as int, c0.len() as int);
        lemma_ring_node(c0, r, 0);
        lemma_ring_node(c0, r, 1);
        lemma_ring_node(c0, r, n as int);
        lemma_mass_bounds(l, 0);
        lemma_mass_bounds(l, n as int);
    }
    let start_prev: Node = tracking.split(start, end);
    let ghost c1 = tracking@;
    let members = tracking.iter(start);
    proof {
        lemma_ring_unique(c1, node_ints(members@), cut);
    }
    let slots = node_slots(&members);
    let before: Span = tracking.node(start_prev).data;
    let after: Span = tracking.node(end).data;
    proof {
        assert(before == l[0]);
        assert(after == l[n as int]);
        assert(l[1] == length);
        assert(main[0] == r[0]);
        lemma_clause_slots(c1, cut, slots@);
        assert(st.lens[r[0]] == l[0] && st.lens[r[1]] == l[1] && st.lens[r[n as int]] == l[n as int]);
    }
    if n % 2 == 0 {
        proof {
            lemma_even_step(l[0], length as int, n as int, l[n as int], l.subrange(n + 1, size));
        }
        let new_length: Span = before - length + after;
        let place = tracking.mut_data(start_prev);
        *place = new_length;
        let clause = RedClause { slots, arity: n, mountains: n / 2, spare: None };
        proof {
            let c2 = tracking@;
            lemma_set_first(c1, c2, main, new_length);
            assert(ring_lens(c2, main) =~= seq![l[0] - length + l[n as int]] + l.subrange(
                n + 1,
                size,
            ));
            assert(state_of(c2, main).lens =~= st.lens.update(r[0], new_length as int));
        }
        (clause, start_prev)
    } else {
        proof {
            lemma_odd_step(l[0], length as int, n as int, l[n as int], l.subrange(n + 1, size));
            lemma_ring_nonempty(c1, main);
            assert forall|y: int| listed(main, y) implies 0 <= y < c1.len() by {
                lemma_ring_listed(c1, main, y);
            }
            lemma_spare_nodes(main, c1.len() as int, more, c1.len() as int);
        }
        let node = tracking.add_node(after);
        let total: usize = tracking.len();
        proof {
            lemma_spare(c1, main, after);
        }
        let ghost c2 = tracking@;
        tracking.splice(start_prev, node);
        let clause = RedClause { slots, arity: n + 1, mountains: (n + 1) / 2, spare: Some(node.0) };
        proof {
            let c3 = tracking@;
            let x = c1.len() as int;
            let new_ring = seq![main[0], x] + main.subrange(1, main.len() as int);
            assert(ring_lens(c3, new_ring) =~= seq![l[0], l[n as int]] + l.subrange(n + 1, size));
            assert(main.subrange(1, main.len() as int) =~= r.subrange(n + 1, size));
            lemma_spliced_data(c2, start_prev@, node@);
            assert(state_of(c3, new_ring).lens =~= st.lens.push(after as int));
        }
        (clause, start_prev)
    }
}

/// Plans the red clauses of a face whose corners are not flat, from the
/// effective lengths of its edges in counter-clockwise order: while the ring
/// of corners has a valley, the corners of the first valley are cut out for
/// a clause, and the ring is closed over the gap; the corners that are left
/// when all edges are equal go to a last clause.
pub fn shrink(lens: &Vec<Span>, exterior: bool) -> (plan: Vec<RedClause>)
    requires
        lens@.len() >= 2,
        lens@.len() % 2 == 0,
        alt_sum(span_ints(lens@)) == 0,
        mass(span_ints(lens@)) <= mass_bound(),
    ensures
        views(plan@) == shrunk(initial(span_ints(lens@)), exterior),
        plan_ok(lens@.len() as int, exterior, plan@),
{
    let m: usize = lens.len();
    let made = ring_of(lens);
    let mut tracking: Circular<Span> = made.0;
    let mut head: Node = made.1;
    let ghost mut ring: Seq<int> = rotated(upto(m as int), m - 1);
    let ghost mut used: Seq<int> = Seq::empty();
    let ghost target = shrunk(initial(span_ints(lens@)), exterior);
    let mut plan: Vec<RedClause> = Vec::new();
    proof {
        let l = span_ints(lens@);
        lemma_ring_rotated(tracking@, upto(m as int), m - 1);
        assert(ring_lens(tracking@, ring) =~= rot(l, m - 1));
        let front = l.subrange(0, m - 1);
        let back = l.subrange(m - 1, m as int);
        assert(l =~= front + back);
        lemma_alt_rotate(front, back);
        lemma_mass_concat(front, back);
        lemma_mass_concat(back, front);
        assert(distinct(used)) by {
            reveal(distinct);
        }
        assert forall|x: int| 0 <= x < m && !listed(ring, x) implies #[trigger] listed(used, x) by {
            crate::circular::lemma_listed_rotated(upto(m as int), m - 1, x);
            assert(upto(m as int)[x] == x);
        }
        assert(joined(plan@) =~= used);
        assert(state_of(tracking@, ring).lens =~= l) by {
            assert forall|i: int| 0 <= i < m implies state_of(tracking@, ring).lens[i] == l[i] by {
                assert(ring_lens(tracking@, upto(m as int))[i] == l[i]);
                assert(upto(m as int)[i] == i);
            }
        }
        assert(state_of(tracking@, ring) == initial(l));
        assert(views(plan@) + target =~= target);
    }
    loop
        invariant
            m == lens@.len(),
            tracking.wf(),
            head@ == ring[0],
            shrink_inv(tracking@, ring, used),
            used.len() + ring.len() == tracking@.len(),
            tracking@.len() == m + spares(plan@),
            used == joined(plan@),
            views(plan@) + shrunk(state_of(tracking@, ring), exterior) == target,
            forall|k: int|
                0 <= k < plan@.len() ==> clause_ok(#[trigger] plan@[k], m + spares(plan@.take(k)))
                    && plan@[k].mountains == plan@[k].arity / 2,
        ensures
            level(ring_lens(tracking@, ring)),
        decreases ring.len(),
    {
        let ghost c0 = tracking@;
        proof {
            lemma_ring_nonempty(c0, ring);
        }
        let found = find_enclosed_edge_sequence(&tracking, head);
        match found {
            None => {
                proof {
                    let ring2 = choose|ring2: Seq<int>|
                        #[trigger] is_ring(c0, ring2) && ring2[0] == head@ && level(
                            ring_lens(c0, ring2),
                        );
                    lemma_ring_unique(c0, ring2, ring);
                }
                break ;
            },
            Some(valley_found) => {
                let ghost (ring2, p, s, e) = choose|ring2: Seq<int>, p: int, s: int, e: int|
                    #[trigger] found_valley(
                        c0,
                        head@,
                        valley_found.0@,
                        valley_found.1@,
                        valley_found.2 as int,
                        valley_found.3 as int,
                        ring2,
                        p,
                        s,
                        e,
                    );
                proof {
                    lemma_ring_unique(c0, ring2, ring);
                }
                let ghost st = state_of(c0, ring);
                let made = cut_valley(
                    &mut tracking,
                    head,
                    valley_found.0,
                    valley_found.1,
                    valley_found.2,
                    valley_found.3,
                    Ghost(ring),
                    Ghost(used),
                    Ghost(p),
                    Ghost(s),
                    Ghost(e),
                );
                let clause = made.0;
                proof {
                    let step = cut_at(st, s, e);
                    lemma_along(c0, ring);
                    lemma_shrunk_step(st, exterior, p, s, e);
                    lemma_plan_push(plan@, clause);
                    assert(views(plan@.push(clause)) =~= views(plan@) + seq![step.0]);
                    assert((views(plan@) + seq![step.0]) + shrunk(step.1, exterior) =~= views(plan@)
                        + (seq![step.0] + shrunk(step.1, exterior)));
                    ring = step.1.ring;
                    used = used + slot_ints(clause.slots@);
                }
                plan.push(clause);
                head = made.1;
            },
        }
    }
    proof {
        lemma_ring_nonempty(tracking@, ring);
    }
    let rest = tracking.iter(head);
    let slots = node_slots(&rest);
    let remaining: usize = rest.len();
    proof {
        lemma_ring_unique(tracking@, node_ints(rest@), ring);
        assert(remaining >= 2);
    }
    let mountains: usize = if exterior {
        remaining / 2 + 1
    } else {
        remaining / 2 - 1
    };
    let clause = RedClause { slots, arity: remaining, mountains, spare: None };
    proof {
        let st = state_of(tracking@, ring);
        lemma_along(tracking@, ring);
        lemma_shrunk_level(st, exterior);
        assert(clause@ == last_clause(st, exterior));
        assert(views(plan@.push(clause)) =~= views(plan@) + seq![clause@]);
        lemma_plan_push(plan@, clause);
        let done = plan@.push(clause);
        lemma_clause_slots(tracking@, ring, clause.slots@);
        assert(clause_ok(clause, m + spares(plan@)));
        lemma_distinct_concat(used, ring);
        assert forall|x: int| 0 <= x < m + spares(done) implies #[trigger] listed(joined(done), x) by {
            lemma_listed_concat(used, ring, x);
            if !listed(ring, x) {
                assert(listed(used, x));
            }
        }
        assert forall|k: int| 0 <= k < done.len() implies clause_ok(
            #[trigger] done[k],
            m + spares(done.take(k)),
        ) by {
            if k < plan@.len() {
                assert(done[k] == plan@[k]);
                assert(done.take(k) == plan@.take(k));
            } else {
                assert(done.take(k) == plan@);
            }
        }
        assert forall|k: int| 0 <= k < done.len() - 1 implies (#[trigger] done[k]).mountains
            == done[k].arity / 2 by {
            assert(done[k] == plan@[k]);
        }
    }
    plan.push(clause);
    plan
}

} // verus!
