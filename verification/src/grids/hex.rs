//! The hexagonal grid: `n` rows of `m` hexagons in axial coordinates, sewn
//! along their shared edges.
//!
//! The hexagon of row `r` and place `q` holds the twelve darts from
//! `12 (r m + q)` on. Its first dart lies on its north-east edge at its
//! north vertex; darts `2 k` and `2 k + 1` are the two sides of corner `k`.
//! Darts 10 and 9 are sewn to darts 3 and 4 of the next hexagon of the row,
//! darts 8 and 7 to darts 1 and 2 of the hexagon of the next row at the same
//! place, and darts 5 and 6 to darts 0 and 11 of the one before that.

use crate::dart::{Alphas, Dart};
use crate::gmap::{ints, GMap};
use crate::grids::square::windows;
use crate::model::{chain_image, GMapView};
use crate::orbit_map::OrbitMap;
use vstd::prelude::*;

verus! {

/// The number of hexagon `(r, q)` in a grid of rows of `m`.
pub open spec fn place(m: int, r: int, q: int) -> int {
    r * m + q
}

/// Dart `t` of hexagon `(r, q)`.
pub open spec fn cell(m: int, r: int, q: int, t: int) -> int {
    12 * place(m, r, q) + t
}

/// Within a hexagon, the side that `alpha_0` joins to side `t`.
pub open spec fn side0(t: int) -> int {
    if t == 0 {
        11
    } else if t == 11 {
        0
    } else if t % 2 == 1 {
        t + 1
    } else {
        t - 1
    }
}

/// Within a hexagon, the side that `alpha_1` joins to side `t`.
pub open spec fn side1(t: int) -> int {
    if t % 2 == 0 {
        t + 1
    } else {
        t - 1
    }
}

/// Hexagon `(r, q)` is sewn to the next of its row, when the hexagons
/// before number `e` are.
pub open spec fn east(m: int, r: int, q: int, e: int) -> bool {
    0 <= q && q + 1 < m && place(m, r, q) < e
}

/// Hexagon `(r, q)` is sewn to the one of the next row at its place, when
/// the hexagons before number `s` are.
pub open spec fn south(n: int, m: int, r: int, q: int, s: int) -> bool {
    0 <= r && r + 1 < n && 0 <= q < m && place(m, r, q) < s
}

/// Hexagon `(r, q)` is sewn to the one of the next row one place before,
/// when the hexagons before number `w` are.
pub open spec fn west(n: int, m: int, r: int, q: int, w: int) -> bool {
    0 <= r && r + 1 < n && 1 <= q < m && place(m, r, q) < w
}

/// The image under `alpha_2` of side `t` of hexagon `(r, q)`, when the
/// hexagons before `e`, `s` and `w` are sewn in the three directions. A
/// side that is not sewn is free.
pub open spec fn side2(n: int, m: int, r: int, q: int, t: int, e: int, s: int, w: int) -> int {
    if t == 10 && east(m, r, q, e) {
        cell(m, r, q + 1, 3)
    } else if t == 9 && east(m, r, q, e) {
        cell(m, r, q + 1, 4)
    } else if t == 3 && east(m, r, q - 1, e) {
        cell(m, r, q - 1, 10)
    } else if t == 4 && east(m, r, q - 1, e) {
        cell(m, r, q - 1, 9)
    } else if t == 8 && south(n, m, r, q, s) {
        cell(m, r + 1, q, 1)
    } else if t == 7 && south(n, m, r, q, s) {
        cell(m, r + 1, q, 2)
    } else if t == 1 && south(n, m, r - 1, q, s) {
        cell(m, r - 1, q, 8)
    } else if t == 2 && south(n, m, r - 1, q, s) {
        cell(m, r - 1, q, 7)
    } else if t == 5 && west(n, m, r, q, w) {
        cell(m, r + 1, q - 1, 0)
    } else if t == 6 && west(n, m, r, q, w) {
        cell(m, r + 1, q - 1, 11)
    } else if t == 0 && west(n, m, r - 1, q + 1, w) {
        cell(m, r - 1, q + 1, 5)
    } else if t == 11 && west(n, m, r - 1, q + 1, w) {
        cell(m, r - 1, q + 1, 6)
    } else {
        cell(m, r, q, t)
    }
}

/// Side `t` of hexagon `(r, q)` is as the grid has it.
pub open spec fn side_ok(
    g: GMapView,
    n: int,
    m: int,
    e: int,
    s: int,
    w: int,
    r: int,
    q: int,
    t: int,
) -> bool {
    let d = cell(m, r, q, t);
    &&& 0 <= d < g.ndarts()
    &&& g.live(d)
    &&& g.al(d, 0) == cell(m, r, q, side0(t))
    &&& g.al(d, 1) == cell(m, r, q, side1(t))
    &&& g.al(d, 2) == side2(n, m, r, q, t, e, s, w)
}

/// `g` holds the first `c` hexagons of a grid of `n` rows of `m`, sewn in
/// the three directions before `e`, `s` and `w`.
pub open spec fn is_hex(g: GMapView, n: int, m: int, c: int, e: int, s: int, w: int) -> bool {
    &&& g.dimension == 2
    &&& g.ndarts() == 12 * c
    &&& forall|r: int, q: int, t: int|
        0 <= r && 0 <= q < m && 0 <= t < 12 && place(m, r, q) < c ==> #[trigger] side_ok(
            g,
            n,
            m,
            e,
            s,
            w,
            r,
            q,
            t,
        )
}

/// `g` is the hexagonal grid of `n` rows of `m`.
pub open spec fn is_hex_grid(g: GMapView, n: int, m: int) -> bool {
    is_hex(g, n, m, n * m, n * m, n * m, n * m)
}

proof fn lemma_flat(m: int, r: int, q: int, r2: int, q2: int)
    by (nonlinear_arith)
    requires
        0 <= q < m,
        0 <= q2 < m,
        r * m + q == r2 * m + q2,
    ensures
        r == r2,
        q == q2,
{
}

proof fn lemma_rows(m: int, r: int, q: int, n: int)
    by (nonlinear_arith)
    requires
        0 <= r < n,
        0 <= q < m,
    ensures
        0 <= r * m + q < n * m,
        (r + 1) * m == r * m + m,
        0 <= r * m,
{
}

/// A dart is one side of one hexagon.
proof fn lemma_cell_unique(m: int, r: int, q: int, t: int, r2: int, q2: int, t2: int)
    requires
        0 <= q < m,
        0 <= q2 < m,
        0 <= t < 12,
        0 <= t2 < 12,
        cell(m, r, q, t) == cell(m, r2, q2, t2),
    ensures
        r == r2,
        q == q2,
        t == t2,
{
    lemma_flat(m, r, q, r2, q2);
}

/// One more hexagon, not sewn yet.
proof fn lemma_hex_add(g: GMapView, n: int, m: int, c: int)
    requires
        g.valid(),
        m >= 1,
        0 <= c,
        is_hex(g, n, m, c, 0, 0, 0),
    ensures
        is_hex(g.with_cycle(1, 0, 6), n, m, c + 1, 0, 0, 0),
{
    let h = g.with_cycle(1, 0, 6);
    g.lemma_with_chain_valid(1, 0, 6, true);
    let s0 = g.ndarts();
    assert forall|r: int, q: int, t: int|
        0 <= r && 0 <= q < m && 0 <= t < 12 && place(m, r, q) < c + 1 implies #[trigger] side_ok(
        h,
        n,
        m,
        0,
        0,
        0,
        r,
        q,
        t,
    ) by {
        let d = cell(m, r, q, t);
        assert(0 <= r * m) by (nonlinear_arith)
            requires
                0 <= r,
                0 <= m,
        ;
        if place(m, r, q) < c {
            assert(side_ok(g, n, m, 0, 0, 0, r, q, t));
            assert(h.al(d, 0) == g.al(d, 0));
            assert(h.al(d, 1) == g.al(d, 1));
            assert(h.al(d, 2) == g.al(d, 2));
        } else {
            assert(d == s0 + t);
            assert(h.al(s0 + t, 0) == chain_image(s0, 6, 1, 0, true, t, 0));
            assert(h.al(s0 + t, 1) == chain_image(s0, 6, 1, 0, true, t, 1));
            assert(h.al(s0 + t, 2) == chain_image(s0, 6, 1, 0, true, t, 2));
        }
    }
}

/// Nothing changes where the marks of what is sewn move without passing a
/// hexagon that has a neighbour in their direction.
proof fn lemma_hex_same(
    g: GMapView,
    n: int,
    m: int,
    c: int,
    e: int,
    s: int,
    w: int,
    e2: int,
    s2: int,
    w2: int,
)
    requires
        is_hex(g, n, m, c, e, s, w),
        forall|r: int, q: int| 0 <= q < m ==> #[trigger] east(m, r, q, e) == east(m, r, q, e2),
        forall|r: int, q: int|
            0 <= q < m ==> #[trigger] south(n, m, r, q, s) == south(n, m, r, q, s2),
        forall|r: int, q: int| 0 <= q < m ==> #[trigger] west(n, m, r, q, w) == west(n, m, r, q, w2),
    ensures
        is_hex(g, n, m, c, e2, s2, w2),
{
    assert forall|r: int, q: int, t: int|
        0 <= r && 0 <= q < m && 0 <= t < 12 && place(m, r, q) < c implies #[trigger] side_ok(
        g,
        n,
        m,
        e2,
        s2,
        w2,
        r,
        q,
        t,
    ) by {
        assert(side_ok(g, n, m, e, s, w, r, q, t));
        assert(east(m, r, q, e) == east(m, r, q, e2));
        assert(south(n, m, r, q, s) == south(n, m, r, q, s2));
        assert(west(n, m, r, q, w) == west(n, m, r, q, w2));
        assert(south(n, m, r - 1, q, s) == south(n, m, r - 1, q, s2));
        if q >= 1 {
            assert(east(m, r, q - 1, e) == east(m, r, q - 1, e2));
        }
        if q + 1 < m {
            assert(west(n, m, r - 1, q + 1, w) == west(n, m, r - 1, q + 1, w2));
        }
    }
}

/// Sewing side `tx` of hexagon `(rx, qx)` to side `ty` of hexagon
/// `(ry, qy)`: the two can be sewn, and the grid is then sewn one hexagon
/// further.
proof fn lemma_hex_sew(
    g: GMapView,
    n: int,
    m: int,
    c: int,
    old_marks: (int, int, int),
    new_marks: (int, int, int),
    rx: int,
    qx: int,
    tx: int,
    ry: int,
    qy: int,
    ty: int,
)
    requires
        g.valid(),
        is_hex(g, n, m, c, old_marks.0, old_marks.1, old_marks.2),
        0 <= rx && 0 <= qx < m && 0 <= tx < 12 && place(m, rx, qx) < c,
        0 <= ry && 0 <= qy < m && 0 <= ty < 12 && place(m, ry, qy) < c,
        rx != ry || qx != qy,
        forall|r: int, q: int, t: int|
            0 <= r && 0 <= q < m && 0 <= t < 12 && place(m, r, q) < c ==> #[trigger] side2(
                n,
                m,
                r,
                q,
                t,
                new_marks.0,
                new_marks.1,
                new_marks.2,
            ) == (if r == rx && q == qx && t == tx {
                cell(m, ry, qy, ty)
            } else if r == rx && q == qx && t == side0(tx) {
                cell(m, ry, qy, side0(ty))
            } else if r == ry && q == qy && t == ty {
                cell(m, rx, qx, tx)
            } else if r == ry && q == qy && t == side0(ty) {
                cell(m, rx, qx, side0(tx))
            } else {
                side2(n, m, r, q, t, old_marks.0, old_marks.1, old_marks.2)
            }),
        side2(n, m, rx, qx, tx, old_marks.0, old_marks.1, old_marks.2) == cell(m, rx, qx, tx),
        side2(n, m, rx, qx, side0(tx), old_marks.0, old_marks.1, old_marks.2) == cell(
            m,
            rx,
            qx,
            side0(tx),
        ),
        side2(n, m, ry, qy, ty, old_marks.0, old_marks.1, old_marks.2) == cell(m, ry, qy, ty),
        side2(n, m, ry, qy, side0(ty), old_marks.0, old_marks.1, old_marks.2) == cell(
            m,
            ry,
            qy,
            side0(ty),
        ),
    ensures
        g.live(cell(m, rx, qx, tx)),
        g.live(cell(m, ry, qy, ty)),
        g.al(cell(m, rx, qx, tx), 0) == cell(m, rx, qx, side0(tx)),
        g.al(cell(m, ry, qy, ty), 0) == cell(m, ry, qy, side0(ty)),
        g.al(cell(m, rx, qx, tx), 0) != cell(m, rx, qx, tx),
        g.al(cell(m, ry, qy, ty), 0) != cell(m, ry, qy, ty),
        cell(m, rx, qx, tx) != cell(m, ry, qy, ty),
        cell(m, rx, qx, side0(tx)) != cell(m, ry, qy, ty),
        g.is_free(cell(m, rx, qx, tx), 2),
        g.is_free(cell(m, rx, qx, side0(tx)), 2),
        g.is_free(cell(m, ry, qy, ty), 2),
        g.is_free(cell(m, ry, qy, side0(ty)), 2),
        is_hex(
            g.linked(2, cell(m, rx, qx, tx), cell(m, ry, qy, ty)).linked(
                2,
                cell(m, rx, qx, side0(tx)),
                cell(m, ry, qy, side0(ty)),
            ),
            n,
            m,
            c,
            new_marks.0,
            new_marks.1,
            new_marks.2,
        ),
{
    let (e, s, w) = old_marks;
    let (e2, s2, w2) = new_marks;
    let x = cell(m, rx, qx, tx);
    let x0 = cell(m, rx, qx, side0(tx));
    let y = cell(m, ry, qy, ty);
    let y0 = cell(m, ry, qy, side0(ty));
    assert(side_ok(g, n, m, e, s, w, rx, qx, tx));
    assert(side_ok(g, n, m, e, s, w, rx, qx, side0(tx)));
    assert(side_ok(g, n, m, e, s, w, ry, qy, ty));
    assert(side_ok(g, n, m, e, s, w, ry, qy, side0(ty)));
    if x == y {
        lemma_cell_unique(m, rx, qx, tx, ry, qy, ty);
    }
    if x0 == y {
        lemma_cell_unique(m, rx, qx, side0(tx), ry, qy, ty);
    }
    if x == y0 {
        lemma_cell_unique(m, rx, qx, tx, ry, qy, side0(ty));
    }
    if x0 == y0 {
        lemma_cell_unique(m, rx, qx, side0(tx), ry, qy, side0(ty));
    }
    let g1 = g.linked(2, x, y);
    g.lemma_linked_sound(2, x, y);
    assert(g1.is_free(x0, 2) && g1.is_free(y0, 2));
    let g2 = g1.linked(2, x0, y0);
    g1.lemma_linked_sound(2, x0, y0);
    assert forall|r: int, q: int, t: int|
        0 <= r && 0 <= q < m && 0 <= t < 12 && place(m, r, q) < c implies #[trigger] side_ok(
        g2,
        n,
        m,
        e2,
        s2,
        w2,
        r,
        q,
        t,
    ) by {
        let d = cell(m, r, q, t);
        assert(side_ok(g, n, m, e, s, w, r, q, t));
        assert(g1.al(d, 0) == g.al(d, 0) && g2.al(d, 0) == g1.al(d, 0));
        assert(g1.al(d, 1) == g.al(d, 1) && g2.al(d, 1) == g1.al(d, 1));
        let target = side2(n, m, r, q, t, e2, s2, w2);
        if d == x {
            lemma_cell_unique(m, r, q, t, rx, qx, tx);
        } else if d == x0 {
            lemma_cell_unique(m, r, q, t, rx, qx, side0(tx));
        } else if d == y {
            lemma_cell_unique(m, r, q, t, ry, qy, ty);
        } else if d == y0 {
            lemma_cell_unique(m, r, q, t, ry, qy, side0(ty));
        } else {
            assert(g1.al(d, 2) == g.al(d, 2));
            assert(g2.al(d, 2) == g1.al(d, 2));
        }
    }
}

/// The darts that the walks of the sewing come to, from the first dart of
/// a hexagon.
proof fn lemma_hex_walks(
    g: GMapView,
    n: int,
    m: int,
    c: int,
    marks: (int, int, int),
    r: int,
    q: int,
)
    requires
        is_hex(g, n, m, c, marks.0, marks.1, marks.2),
        0 <= r,
        0 <= q < m,
        place(m, r, q) < c,
    ensures
        g.has_dart(cell(m, r, q, 0)),
        g.walk(cell(m, r, q, 0), seq![0int]) == cell(m, r, q, 11),
        g.walk(cell(m, r, q, 0), seq![1int]) == cell(m, r, q, 1),
        g.walk(cell(m, r, q, 0), seq![0int, 1int]) == cell(m, r, q, 10),
        g.walk(cell(m, r, q, 0), seq![1int, 0int, 1int]) == cell(m, r, q, 3),
        g.walk(cell(m, r, q, 0), seq![0int, 1int, 0int, 1int]) == cell(m, r, q, 8),
        g.walk(cell(m, r, q, 0), seq![1int, 0int, 1int, 0int, 1int]) == cell(m, r, q, 5),
        g.walk(cell(m, r, q, 0), seq![0int, 1int, 0int]) == cell(m, r, q, 9),
        g.walk(cell(m, r, q, 0), seq![0int, 1int, 0int, 1int, 0int]) == cell(m, r, q, 7),
        g.walk(cell(m, r, q, 0), seq![0int, 1int, 0int, 1int, 0int, 1int, 0int]) == cell(
            m,
            r,
            q,
            5,
        ),
        g.walk(cell(m, r, q, 0), seq![0int, 1int, 0int, 1int, 0int, 1int, 0int, 1int, 0int])
            == cell(m, r, q, 3),
{
    let (e, s, w) = marks;
    let d = cell(m, r, q, 0);
    assert forall|t: int| 0 <= t < 12 implies side_ok(g, n, m, e, s, w, r, q, t) by {}
    let nil = Seq::<int>::empty();
    assert(side_ok(g, n, m, e, s, w, r, q, 0));
    assert(side_ok(g, n, m, e, s, w, r, q, 1));
    assert(side_ok(g, n, m, e, s, w, r, q, 2));
    assert(side_ok(g, n, m, e, s, w, r, q, 3));
    assert(side_ok(g, n, m, e, s, w, r, q, 4));
    assert(side_ok(g, n, m, e, s, w, r, q, 5));
    assert(side_ok(g, n, m, e, s, w, r, q, 6));
    assert(side_ok(g, n, m, e, s, w, r, q, 7));
    assert(side_ok(g, n, m, e, s, w, r, q, 8));
    assert(side_ok(g, n, m, e, s, w, r, q, 9));
    assert(side_ok(g, n, m, e, s, w, r, q, 10));
    assert(side_ok(g, n, m, e, s, w, r, q, 11));
    // clockwise from the first dart
    g.lemma_walk_push(d, nil, 0);
    let p1 = nil.push(0);
    g.lemma_walk_push(d, p1, 1);
    let p2 = p1.push(1);
    g.lemma_walk_push(d, p2, 0);
    let p3 = p2.push(0);
    g.lemma_walk_push(d, p3, 1);
    let p4 = p3.push(1);
    g.lemma_walk_push(d, p4, 0);
    let p5 = p4.push(0);
    g.lemma_walk_push(d, p5, 1);
    let p6 = p5.push(1);
    g.lemma_walk_push(d, p6, 0);
    let p7 = p6.push(0);
    g.lemma_walk_push(d, p7, 1);
    let p8 = p7.push(1);
    g.lemma_walk_push(d, p8, 0);
    let p9 = p8.push(0);
    assert(p1 =~= seq![0int]);
    assert(p2 =~= seq![0int, 1int]);
    assert(p3 =~= seq![0int, 1int, 0int]);
    assert(p4 =~= seq![0int, 1int, 0int, 1int]);
    assert(p5 =~= seq![0int, 1int, 0int, 1int, 0int]);
    assert(p7 =~= seq![0int, 1int, 0int, 1int, 0int, 1int, 0int]);
    assert(p9 =~= seq![0int, 1int, 0int, 1int, 0int, 1int, 0int, 1int, 0int]);
    // counter-clockwise from the first dart
    g.lemma_walk_push(d, nil, 1);
    let c1 = nil.push(1);
    g.lemma_walk_push(d, c1, 0);
    let c2 = c1.push(0);
    g.lemma_walk_push(d, c2, 1);
    let c3 = c2.push(1);
    g.lemma_walk_push(d, c3, 0);
    let c4 = c3.push(0);
    g.lemma_walk_push(d, c4, 1);
    let c5 = c4.push(1);
    assert(c1 =~= seq![1int]);
    assert(c3 =~= seq![1int, 0int, 1int]);
    assert(c5 =~= seq![1int, 0int, 1int, 0int, 1int]);
}

/// Before hexagon `(i, j)` is sewn to the next of its row: the sides to be
/// sewn are free, and nothing else changes by the sewing.
proof fn lemma_east_step(g: GMapView, n: int, m: int, i: int, j: int)
    requires
        g.valid(),
        0 <= i < n,
        0 <= j,
        j + 1 < m,
        is_hex(g, n, m, n * m, place(m, i, j), 0, 0),
    ensures
        g.live(cell(m, i, j, 10)),
        g.live(cell(m, i, j + 1, 3)),
        g.al(cell(m, i, j, 10), 0) != cell(m, i, j, 10),
        g.al(cell(m, i, j + 1, 3), 0) != cell(m, i, j + 1, 3),
        g.al(cell(m, i, j, 10), 0) != cell(m, i, j + 1, 3),
        cell(m, i, j, 10) != cell(m, i, j + 1, 3),
        g.is_free(cell(m, i, j, 10), 2),
        g.is_free(cell(m, i, j + 1, 3), 2),
        g.is_free(g.al(cell(m, i, j, 10), 0), 2),
        g.is_free(g.al(cell(m, i, j + 1, 3), 0), 2),
        is_hex(
            g.linked(2, cell(m, i, j, 10), cell(m, i, j + 1, 3)).linked(
                2,
                g.al(cell(m, i, j, 10), 0),
                g.al(cell(m, i, j + 1, 3), 0),
            ),
            n,
            m,
            n * m,
            place(m, i, j) + 1,
            0,
            0,
        ),
{
    let e = place(m, i, j);
    lemma_rows(m, i, j, n);
    lemma_rows(m, i, j + 1, n);
    assert forall|r: int, q: int, t: int|
        0 <= r && 0 <= q < m && 0 <= t < 12 && place(m, r, q) < n * m implies #[trigger] side2(
        n,
        m,
        r,
        q,
        t,
        e + 1,
        0,
        0,
    ) == (if r == i && q == j && t == 10 {
        cell(m, i, j + 1, 3)
    } else if r == i && q == j && t == side0(10) {
        cell(m, i, j + 1, side0(3))
    } else if r == i && q == j + 1 && t == 3 {
        cell(m, i, j, 10)
    } else if r == i && q == j + 1 && t == side0(3) {
        cell(m, i, j, side0(10))
    } else {
        side2(n, m, r, q, t, e, 0, 0)
    }) by {
        if place(m, r, q) == e {
            lemma_flat(m, r, q, i, j);
        }
        if q >= 1 && place(m, r, q - 1) == e {
            lemma_flat(m, r, q - 1, i, j);
        }
    }
    lemma_hex_sew(g, n, m, n * m, (e, 0, 0), (e + 1, 0, 0), i, j, 10, i, j + 1, 3);
}

/// Before hexagon `(i, j)` is sewn to the one of the next row at its place.
proof fn lemma_south_step(g: GMapView, n: int, m: int, i: int, j: int)
    requires
        g.valid(),
        0 <= i,
        i + 1 < n,
        0 <= j < m,
        is_hex(g, n, m, n * m, n * m, place(m, i, j), place(m, i, 0)),
    ensures
        g.live(cell(m, i, j, 8)),
        g.live(cell(m, i + 1, j, 1)),
        g.al(cell(m, i, j, 8), 0) != cell(m, i, j, 8),
        g.al(cell(m, i + 1, j, 1), 0) != cell(m, i + 1, j, 1),
        g.al(cell(m, i, j, 8), 0) != cell(m, i + 1, j, 1),
        cell(m, i, j, 8) != cell(m, i + 1, j, 1),
        g.is_free(cell(m, i, j, 8), 2),
        g.is_free(cell(m, i + 1, j, 1), 2),
        g.is_free(g.al(cell(m, i, j, 8), 0), 2),
        g.is_free(g.al(cell(m, i + 1, j, 1), 0), 2),
        is_hex(
            g.linked(2, cell(m, i, j, 8), cell(m, i + 1, j, 1)).linked(
                2,
                g.al(cell(m, i, j, 8), 0),
                g.al(cell(m, i + 1, j, 1), 0),
            ),
            n,
            m,
            n * m,
            n * m,
            place(m, i, j) + 1,
            place(m, i, 0),
        ),
{
    let s = place(m, i, j);
    let w = place(m, i, 0);
    lemma_rows(m, i, j, n);
    lemma_rows(m, i + 1, j, n);
    assert forall|r: int, q: int, t: int|
        0 <= r && 0 <= q < m && 0 <= t < 12 && place(m, r, q) < n * m implies #[trigger] side2(
        n,
        m,
        r,
        q,
        t,
        n * m,
        s + 1,
        w,
    ) == (if r == i && q == j && t == 8 {
        cell(m, i + 1, j, 1)
    } else if r == i && q == j && t == side0(8) {
        cell(m, i + 1, j, side0(1))
    } else if r == i + 1 && q == j && t == 1 {
        cell(m, i, j, 8)
    } else if r == i + 1 && q == j && t == side0(1) {
        cell(m, i, j, side0(8))
    } else {
        side2(n, m, r, q, t, n * m, s, w)
    }) by {
        if place(m, r, q) == s {
            lemma_flat(m, r, q, i, j);
        }
        if place(m, r - 1, q) == s {
            lemma_flat(m, r - 1, q, i, j);
        }
    }
    assert(!west(n, m, i, j + 1, w)) by {
        if j + 1 < m {
            lemma_rows(m, i, j + 1, n);
        }
    }
    lemma_hex_sew(g, n, m, n * m, (n * m, s, w), (n * m, s + 1, w), i, j, 8, i + 1, j, 1);
}

/// Before hexagon `(i, j)` is sewn to the one of the next row one place
/// before.
proof fn lemma_west_step(g: GMapView, n: int, m: int, i: int, j: int)
    requires
        g.valid(),
        0 <= i,
        i + 1 < n,
        1 <= j < m,
        is_hex(g, n, m, n * m, n * m, place(m, i + 1, 0), place(m, i, j)),
    ensures
        g.live(cell(m, i, j, 5)),
        g.live(cell(m, i + 1, j - 1, 0)),
        g.al(cell(m, i, j, 5), 0) != cell(m, i, j, 5),
        g.al(cell(m, i + 1, j - 1, 0), 0) != cell(m, i + 1, j - 1, 0),
        g.al(cell(m, i, j, 5), 0) != cell(m, i + 1, j - 1, 0),
        cell(m, i, j, 5) != cell(m, i + 1, j - 1, 0),
        g.is_free(cell(m, i, j, 5), 2),
        g.is_free(cell(m, i + 1, j - 1, 0), 2),
        g.is_free(g.al(cell(m, i, j, 5), 0), 2),
        g.is_free(g.al(cell(m, i + 1, j - 1, 0), 0), 2),
        is_hex(
            g.linked(2, cell(m, i, j, 5), cell(m, i + 1, j - 1, 0)).linked(
                2,
                g.al(cell(m, i, j, 5), 0),
                g.al(cell(m, i + 1, j - 1, 0), 0),
            ),
            n,
            m,
            n * m,
            n * m,
            place(m, i + 1, 0),
            place(m, i, j) + 1,
        ),
{
    let s = place(m, i + 1, 0);
    let w = place(m, i, j);
    lemma_rows(m, i, j, n);
    lemma_rows(m, i + 1, j - 1, n);
    assert forall|r: int, q: int, t: int|
        0 <= r && 0 <= q < m && 0 <= t < 12 && place(m, r, q) < n * m implies #[trigger] side2(
        n,
        m,
        r,
        q,
        t,
        n * m,
        s,
        w + 1,
    ) == (if r == i && q == j && t == 5 {
        cell(m, i + 1, j - 1, 0)
    } else if r == i && q == j && t == side0(5) {
        cell(m, i + 1, j - 1, side0(0))
    } else if r == i + 1 && q == j - 1 && t == 0 {
        cell(m, i, j, 5)
    } else if r == i + 1 && q == j - 1 && t == side0(0) {
        cell(m, i, j, side0(5))
    } else {
        side2(n, m, r, q, t, n * m, s, w)
    }) by {
        if place(m, r, q) == w {
            lemma_flat(m, r, q, i, j);
        }
        if q + 1 < m && place(m, r - 1, q + 1) == w {
            lemma_flat(m, r - 1, q + 1, i, j);
        }
    }
    lemma_hex_sew(g, n, m, n * m, (n * m, s, w), (n * m, s, w + 1), i, j, 5, i + 1, j - 1, 0);
}

/// The grid of `n` rows of `m` hexagons, with the first dart of every
/// hexagon, row by row: the dart on its north-east edge at its north
/// vertex.
pub fn new(n: usize, m: usize) -> (r: (GMap, Vec<Vec<Dart>>))
    ensures
        r.0.wf(),
        is_hex_grid(r.0@, n as int, m as int),
        r.1@.len() == n,
        forall|i: int| 0 <= i < n ==> (#[trigger] r.1@[i])@.len() == m,
        forall|i: int, j: int|
            0 <= i < n && 0 <= j < m ==> (#[trigger] r.1@[i]@[j])@ == cell(m as int, i, j, 0),
{
    let mut g: GMap = GMap::empty(2).unwrap();
    let ghost gn = n as int;
    let ghost gm = m as int;
    let mut rows: Vec<Vec<Dart>> = Vec::new();
    let mut i: usize = 0;
    proof {
        assert(0 * gm == 0) by (nonlinear_arith);
    }
    while i < n
        invariant
            i <= n,
            gn == n,
            gm == m,
            g.wf(),
            is_hex(g@, gn, gm, i * gm, 0, 0, 0),
            rows@.len() == i,
            forall|a: int| 0 <= a < i ==> (#[trigger] rows@[a])@.len() == m,
            forall|a: int, b: int|
                0 <= a < i && 0 <= b < m ==> (#[trigger] rows@[a]@[b])@ == cell(gm, a, b, 0),
        decreases n - i,
    {
        let mut row: Vec<Dart> = Vec::new();
        let mut j: usize = 0;
        while j < m
            invariant
                i < n,
                j <= m,
                gn == n,
                gm == m,
                g.wf(),
                is_hex(g@, gn, gm, place(gm, i as int, j as int), 0, 0, 0),
                row@.len() == j,
                forall|b: int| 0 <= b < j ==> (#[trigger] row@[b])@ == cell(gm, i as int, b, 0),
            decreases m - j,
        {
            proof {
                lemma_rows(gm, i as int, j as int, gn);
                lemma_hex_add(g@, gn, gm, place(gm, i as int, j as int));
            }
            let s = g.add_polygon(6);
            row.push(s);
            j += 1;
        }
        proof {
            assert((i + 1) * gm == i * gm + gm) by (nonlinear_arith);
        }
        rows.push(row);
        i += 1;
    }
    // sew every hexagon to the next of its row
    let mut i: usize = 0;
    while i < n
        invariant
            i <= n,
            gn == n,
            gm == m,
            g.wf(),
            is_hex(g@, gn, gm, gn * gm, i * gm, 0, 0),
            rows@.len() == n,
            forall|a: int| 0 <= a < n ==> (#[trigger] rows@[a])@.len() == m,
            forall|a: int, b: int|
                0 <= a < n && 0 <= b < m ==> (#[trigger] rows@[a]@[b])@ == cell(gm, a, b, 0),
        decreases n - i,
    {
        let pairs = windows(&rows[i]);
        let mut j: usize = 0;
        proof {
            assert(rows@[i as int]@.len() == m);
            assert forall|b: int| 0 <= b < pairs@.len() implies (#[trigger] pairs@[b]).0@ == cell(
                gm,
                i as int,
                b,
                0,
            ) && pairs@[b].1@ == cell(gm, i as int, b + 1, 0) by {
                assert(rows@[i as int]@[b]@ == cell(gm, i as int, b, 0));
                assert(rows@[i as int]@[b + 1]@ == cell(gm, i as int, b + 1, 0));
            }
        }
        while j < pairs.len()
            invariant
                i < n,
                j <= pairs@.len(),
                pairs@.len() + 1 == m || (m == 0 && pairs@.len() == 0),
                gn == n,
                gm == m,
                g.wf(),
                is_hex(g@, gn, gm, gn * gm, place(gm, i as int, j as int), 0, 0),
                forall|b: int|
                    0 <= b < pairs@.len() ==> (#[trigger] pairs@[b]).0@ == cell(gm, i as int, b, 0)
                        && pairs@[b].1@ == cell(gm, i as int, b + 1, 0),
            decreases pairs@.len() - j,
        {
            let s0: Dart = pairs[j].0;
            let s1: Dart = pairs[j].1;
            let to_east: [usize; 2] = [0, 1];
            let to_west: [usize; 3] = [1, 0, 1];
            proof {
                lemma_rows(gm, i as int, j as int, gn);
                lemma_rows(gm, i as int, j as int + 1, gn);
                lemma_hex_walks(
                    g@,
                    gn,
                    gm,
                    gn * gm,
                    (place(gm, i as int, j as int), 0, 0),
                    i as int,
                    j as int,
                );
                lemma_hex_walks(
                    g@,
                    gn,
                    gm,
                    gn * gm,
                    (place(gm, i as int, j as int), 0, 0),
                    i as int,
                    j as int + 1,
                );
                assert(ints(to_east@) =~= seq![0int, 1int]);
                assert(ints(to_west@) =~= seq![1int, 0int, 1int]);
                assert(g@.has_index(0) && g@.has_index(1));
            }
            let x = g.al(s0, &to_east);
            let y = g.al(s1, &to_west);
            proof {
                lemma_east_step(g@, gn, gm, i as int, j as int);
            }
            g.sew_pair(2, x, y);
            j += 1;
        }
        proof {
            // the last hexagon of a row has none to its east
            let e = place(gm, i as int, j as int);
            assert((i + 1) * gm == i * gm + gm) by (nonlinear_arith);
            assert forall|r: int, q: int| 0 <= q < gm implies #[trigger] east(gm, r, q, e) == east(
                gm,
                r,
                q,
                (i + 1) * gm,
            ) by {
                if place(gm, r, q) == e {
                    lemma_flat(gm, r, q, i as int, gm - 1);
                }
            }
            lemma_hex_same(g@, gn, gm, gn * gm, e, 0, 0, (i + 1) * gm, 0, 0);
        }
        i += 1;
    }
    // sew every hexagon to the two below it
    let mut i: usize = 0;
    while i < n && i + 1 < n
        invariant
            i < n || n == 0,
            gn == n,
            gm == m,
            g.wf(),
            is_hex(g@, gn, gm, gn * gm, gn * gm, i * gm, i * gm),
            rows@.len() == n,
            forall|a: int| 0 <= a < n ==> (#[trigger] rows@[a])@.len() == m,
            forall|a: int, b: int|
                0 <= a < n && 0 <= b < m ==> (#[trigger] rows@[a]@[b])@ == cell(gm, a, b, 0),
        decreases n - i,
    {
        let mut j: usize = 0;
        proof {
            assert(rows@[i as int]@.len() == m);
            assert(rows@[i as int + 1]@.len() == m);
        }
        while j < m
            invariant
                i + 1 < n,
                j <= m,
                gn == n,
                gm == m,
                g.wf(),
                is_hex(g@, gn, gm, gn * gm, gn * gm, place(gm, i as int, j as int), place(
                    gm,
                    i as int,
                    0,
                )),
                rows@.len() == n,
                rows@[i as int]@.len() == m,
                rows@[i as int + 1]@.len() == m,
                forall|a: int, b: int|
                    0 <= a < n && 0 <= b < rows@[a]@.len() && b < m ==> (#[trigger] rows@[a]@[b])@
                        == cell(gm, a, b, 0),
            decreases m - j,
        {
            let s0: Dart = rows[i][j];
            let s1: Dart = rows[i + 1][j];
            let down: [usize; 4] = [0, 1, 0, 1];
            let up: [usize; 1] = [1];
            proof {
                assert(rows@[i as int]@[j as int]@ == cell(gm, i as int, j as int, 0));
                assert(rows@[i as int + 1]@[j as int]@ == cell(gm, i as int + 1, j as int, 0));
                lemma_rows(gm, i as int, j as int, gn);
                lemma_rows(gm, i as int + 1, j as int, gn);
                let marks = (gn * gm, place(gm, i as int, j as int), place(gm, i as int, 0));
                lemma_hex_walks(g@, gn, gm, gn * gm, marks, i as int, j as int);
                lemma_hex_walks(g@, gn, gm, gn * gm, marks, i as int + 1, j as int);
                assert(ints(down@) =~= seq![0int, 1int, 0int, 1int]);
                assert(ints(up@) =~= seq![1int]);
                assert(g@.has_index(0) && g@.has_index(1));
            }
            let x = g.al(s0, &down);
            let y = g.al(s1, &up);
            proof {
                lemma_south_step(g@, gn, gm, i as int, j as int);
            }
            g.sew_pair(2, x, y);
            j += 1;
        }
        proof {
            assert((i + 1) * gm == i * gm + gm) by (nonlinear_arith);
            // the first hexagon of a row has none below and before it
            let s = place(gm, i as int + 1, 0);
            assert(place(gm, i as int, j as int) == s);
            assert forall|r: int, q: int| 0 <= q < gm implies #[trigger] west(
                gn,
                gm,
                r,
                q,
                place(gm, i as int, 0),
            ) == west(gn, gm, r, q, place(gm, i as int, 1)) by {
                if place(gm, r, q) == place(gm, i as int, 0) {
                    lemma_flat(gm, r, q, i as int, 0);
                }
            }
            lemma_hex_same(
                g@,
                gn,
                gm,
                gn * gm,
                gn * gm,
                s,
                place(gm, i as int, 0),
                gn * gm,
                s,
                place(gm, i as int, 1),
            );
        }
        let mut j: usize = 1;
        while j < m
            invariant
                i + 1 < n,
                1 <= j,
                j <= m || m == 0,
                gn == n,
                gm == m,
                g.wf(),
                is_hex(g@, gn, gm, gn * gm, gn * gm, place(gm, i as int + 1, 0), place(
                    gm,
                    i as int,
                    j as int,
                )),
                rows@.len() == n,
                rows@[i as int]@.len() == m,
                rows@[i as int + 1]@.len() == m,
                forall|a: int, b: int|
                    0 <= a < n && 0 <= b < rows@[a]@.len() && b < m ==> (#[trigger] rows@[a]@[b])@
                        == cell(gm, a, b, 0),
            decreases m - j,
        {
            let s0: Dart = rows[i][j];
            let s1: Dart = rows[i + 1][j - 1];
            let round: [usize; 5] = [1, 0, 1, 0, 1];
            proof {
                assert(rows@[i as int]@[j as int]@ == cell(gm, i as int, j as int, 0));
                assert(rows@[i as int + 1]@[j as int - 1]@ == cell(gm, i as int + 1, j as int - 1, 0));
                lemma_rows(gm, i as int, j as int, gn);
                lemma_rows(gm, i as int + 1, j as int - 1, gn);
                let marks = (gn * gm, place(gm, i as int + 1, 0), place(gm, i as int, j as int));
                lemma_hex_walks(g@, gn, gm, gn * gm, marks, i as int, j as int);
                lemma_hex_walks(g@, gn, gm, gn * gm, marks, i as int + 1, j as int - 1);
                assert(ints(round@) =~= seq![1int, 0int, 1int, 0int, 1int]);
                assert(g@.has_index(0) && g@.has_index(1));
            }
            let x = g.al(s0, &round);
            proof {
                lemma_west_step(g@, gn, gm, i as int, j as int);
            }
            g.sew_pair(2, x, s1);
            j += 1;
        }
        proof {
            let s = place(gm, i as int + 1, 0);
            let w = place(gm, i as int, j as int);
            if m > 0 {
                assert(w == s);
            }
            lemma_hex_same(g@, gn, gm, gn * gm, gn * gm, s, w, gn * gm, s, s);
        }
        i += 1;
    }
    proof {
        // the hexagons of the last row have none below
        let last = i * gm;
        assert forall|r: int, q: int| 0 <= q < gm implies #[trigger] south(gn, gm, r, q, last)
            == south(gn, gm, r, q, gn * gm) by {
            if n > 0 && 0 <= r && r + 1 < n {
                assert(r * gm + q < (r + 1) * gm && (r + 1) * gm <= i * gm) by (nonlinear_arith)
                    requires
                        0 <= q < gm,
                        r + 1 <= i,
                ;
                lemma_rows(gm, r, q, gn);
            }
        }
        assert forall|r: int, q: int| 0 <= q < gm implies #[trigger] west(gn, gm, r, q, last) == west(
            gn,
            gm,
            r,
            q,
            gn * gm,
        ) by {
            if n > 0 && 0 <= r && r + 1 < n {
                assert(r * gm + q < (r + 1) * gm && (r + 1) * gm <= i * gm) by (nonlinear_arith)
                    requires
                        0 <= q < gm,
                        r + 1 <= i,
                ;
                lemma_rows(gm, r, q, gn);
            }
        }
        lemma_hex_same(g@, gn, gm, gn * gm, gn * gm, last, last, gn * gm, gn * gm, gn * gm);
    }
    (g, rows)
}

/// The dart at corner `k` of the hexagon of `h`, clockwise from its north
/// vertex: `h` itself, then the dart at the other end of its edge, then on
/// by `alpha_1` and `alpha_0`.
pub open spec fn corner(g: GMapView, h: int, k: int) -> int
    decreases k,
{
    if k <= 0 {
        h
    } else if k == 1 {
        g.al(h, 0)
    } else {
        g.al(g.al(corner(g, h, k - 1), 1), 0)
    }
}

/// The coordinates of corner `k` of hexagon `(r, q)`, along two axes of
/// which the sum points north: with `a = r + 2 q` and `b = r - q`, the
/// north vertex lies at `(a, b - 1)`, and the others follow clockwise.
pub open spec fn corner_coords(r: int, q: int, k: int) -> (int, int) {
    let a = r + 2 * q;
    let b = r - q;
    if k == 0 {
        (a, b - 1)
    } else if k == 1 {
        (a + 1, b - 1)
    } else if k == 2 {
        (a + 1, b)
    } else if k == 3 {
        (a, b + 1)
    } else if k == 4 {
        (a - 1, b + 1)
    } else {
        (a - 1, b)
    }
}

/// The value `v` stands for the coordinates `c`.
pub open spec fn holds(v: (isize, isize), c: (int, int)) -> bool {
    exists|x: (isize, isize)| cloned(x, v) && x.0 == c.0 && x.1 == c.1
}

/// Corner `k` of hexagon `(i, j)` comes before corner `bk` of hexagon
/// `(bi, bj)`, row by row.
pub open spec fn before(i: int, j: int, k: int, bi: int, bj: int, bk: int) -> bool {
    i < bi || (i == bi && (j < bj || (j == bj && k < bk)))
}

/// What the map of coordinates holds when the corners before corner `bk` of
/// hexagon `(bi, bj)` are written: every dart of the vertices of these
/// corners has coordinates, and every dart that has coordinates has those
/// of one of these corners, at its vertex.
pub open spec fn written(
    g: GMapView,
    rows: Seq<Vec<Dart>>,
    coords: Map<usize, (isize, isize)>,
    bi: int,
    bj: int,
    bk: int,
) -> bool {
    &&& forall|i: int, j: int, k: int, e: usize|
        0 <= i < rows.len() && 0 <= j < rows[i]@.len() && 0 <= k < 6 && before(i, j, k, bi, bj, bk)
            && #[trigger] g.reaches(Alphas::vertex(), corner(g, rows[i]@[j]@, k), e as int)
            ==> coords.contains_key(e)
    &&& forall|e: usize| #[trigger]
        coords.contains_key(e) ==> exists|i: int, j: int, k: int|
            0 <= i < rows.len() && 0 <= j < rows[i]@.len() && 0 <= k < 6 && before(
                i,
                j,
                k,
                bi,
                bj,
                bk,
            ) && #[trigger] g.reaches(Alphas::vertex(), corner(g, rows[i]@[j]@, k), e as int)
                && holds(coords[e], corner_coords(i, j, k))
}

/// The coordinates of the vertices of a grid of hexagons, by the darts of
/// the vertices. `rows` holds the first dart of every hexagon, row by row.
/// The six corners of every hexagon are written in turn, clockwise from its
/// north vertex, each for all the darts of its vertex.
pub fn vertex_coords(g: &GMap, rows: &Vec<Vec<Dart>>) -> (r: OrbitMap<(isize, isize)>)
    requires
        g.wf(),
        g@.dimension >= 1,
        rows@.len() <= 0x1000_0000,
        forall|i: int| 0 <= i < rows@.len() ==> (#[trigger] rows@[i])@.len() <= 0x1000_0000,
        forall|i: int, j: int|
            0 <= i < rows@.len() && 0 <= j < rows@[i]@.len() ==> g@.has_dart(
                (#[trigger] rows@[i]@[j])@,
            ),
    ensures
        r.mask() == Alphas::vertex(),
        written(g@, rows@, r@, rows@.len() as int, 0, 0),
{
    let mut coords: OrbitMap<(isize, isize)> = OrbitMap::new(Alphas::vertex());
    let step: [usize; 2] = [1, 0];
    let mut i: usize = 0;
    proof {
        assert(ints(step@) =~= seq![1int, 0int]);
    }
    while i < rows.len()
        invariant
            g.wf(),
            g@.dimension >= 1,
            i <= rows@.len(),
            rows@.len() <= 0x1000_0000,
            ints(step@) == seq![1int, 0int],
            coords.mask() == Alphas::vertex(),
            forall|a: int| 0 <= a < rows@.len() ==> (#[trigger] rows@[a])@.len() <= 0x1000_0000,
            forall|a: int, b: int|
                0 <= a < rows@.len() && 0 <= b < rows@[a]@.len() ==> g@.has_dart(
                    (#[trigger] rows@[a]@[b])@,
                ),
            written(g@, rows@, coords@, i as int, 0, 0),
        decreases rows@.len() - i,
    {
        let row = &rows[i];
        let mut j: usize = 0;
        while j < row.len()
            invariant
                g.wf(),
                g@.dimension >= 1,
                i < rows@.len(),
                row@ == rows@[i as int]@,
                j <= row@.len(),
                row@.len() <= 0x1000_0000,
                rows@.len() <= 0x1000_0000,
                ints(step@) == seq![1int, 0int],
                coords.mask() == Alphas::vertex(),
                forall|a: int, b: int|
                    0 <= a < rows@.len() && 0 <= b < rows@[a]@.len() ==> g@.has_dart(
                        (#[trigger] rows@[a]@[b])@,
                    ),
                written(g@, rows@, coords@, i as int, j as int, 0),
            decreases row@.len() - j,
        {
            let h: Dart = row[j];
            let r: isize = i as isize;
            let q: isize = j as isize;
            let a: isize = r + 2 * q;
            let b: isize = r - q;
            proof {
                assert(g@.has_dart(rows@[i as int]@[j as int]@));
            }
            let mut d: Dart = h;
            let mut k: usize = 0;
            while k < 6
                invariant
                    g.wf(),
                    g@.dimension >= 1,
                    i < rows@.len(),
                    j < rows@[i as int]@.len(),
                    h == rows@[i as int]@[j as int],
                    k <= 6,
                    a == i + 2 * j,
                    b == i - j,
                    i <= 0x1000_0000,
                    j <= 0x1000_0000,
                    ints(step@) == seq![1int, 0int],
                    coords.mask() == Alphas::vertex(),
                    g@.has_dart(d@),
                    k < 6 ==> d@ == corner(g@, h@, k as int),
                    written(g@, rows@, coords@, i as int, j as int, k as int),
                decreases 6 - k,
            {
                let value: (isize, isize) = if k == 0 {
                    (a, b - 1)
                } else if k == 1 {
                    (a + 1, b - 1)
                } else if k == 2 {
                    (a + 1, b)
                } else if k == 3 {
                    (a, b + 1)
                } else if k == 4 {
                    (a - 1, b + 1)
                } else {
                    (a - 1, b)
                };
                let ghost old_coords = coords@;
                coords.insert(g, d, value);
                proof {
                    lemma_written_more(
                        g@,
                        rows@,
                        old_coords,
                        coords@,
                        i as int,
                        j as int,
                        k as int,
                        value,
                    );
                }
                if k == 0 {
                    d = g.al1(d, 0);
                } else if k < 5 {
                    proof {
                        g@.lemma_step(d@, 1, 0);
                        assert(g@.has_dart(g@.al(d@, 1)));
                    }
                    d = g.al(d, &step);
                }
                k += 1;
            }
            proof {
                lemma_written_next(g@, rows@, coords@, i as int, j as int, 6, i as int, j as int + 1, 0);
            }
            j += 1;
        }
        proof {
            lemma_written_next(g@, rows@, coords@, i as int, j as int, 0, i as int + 1, 0, 0);
        }
        i += 1;
    }
    coords
}

/// One more corner written.
proof fn lemma_written_more(
    g: GMapView,
    rows: Seq<Vec<Dart>>,
    old_coords: Map<usize, (isize, isize)>,
    coords: Map<usize, (isize, isize)>,
    i: int,
    j: int,
    k: int,
    value: (isize, isize),
)
    requires
        g.sound(),
        0 <= i < rows.len(),
        0 <= j < rows[i]@.len(),
        0 <= k < 6,
        written(g, rows, old_coords, i, j, k),
        value.0 == corner_coords(i, j, k).0,
        value.1 == corner_coords(i, j, k).1,
        forall|e: usize|
            #![trigger coords.contains_key(e)]
            #![trigger coords[e]]
            g.reaches(Alphas::vertex(), corner(g, rows[i]@[j]@, k), e as int) ==> coords.contains_key(
                e,
            ) && cloned(value, coords[e]),
        forall|e: usize|
            #![trigger coords.contains_key(e)]
            #![trigger coords[e]]
            !g.reaches(Alphas::vertex(), corner(g, rows[i]@[j]@, k), e as int) ==> (
            coords.contains_key(e) == old_coords.contains_key(e)) && (old_coords.contains_key(e)
                ==> coords[e] == old_coords[e]),
    ensures
        written(g, rows, coords, i, j, k + 1),
{
    let v = Alphas::vertex();
    let here = corner(g, rows[i]@[j]@, k);
    assert forall|i2: int, j2: int, k2: int, e: usize|
        0 <= i2 < rows.len() && 0 <= j2 < rows[i2]@.len() && 0 <= k2 < 6 && before(
            i2,
            j2,
            k2,
            i,
            j,
            k + 1,
        ) && #[trigger] g.reaches(v, corner(g, rows[i2]@[j2]@, k2), e as int) implies coords.contains_key(
        e,
    ) by {
        if g.reaches(v, here, e as int) {
        } else {
            assert(before(i2, j2, k2, i, j, k));
            assert(old_coords.contains_key(e));
        }
    }
    assert forall|e: usize| #[trigger] coords.contains_key(e) implies exists|
        i2: int,
        j2: int,
        k2: int,
    |
        0 <= i2 < rows.len() && 0 <= j2 < rows[i2]@.len() && 0 <= k2 < 6 && before(
            i2,
            j2,
            k2,
            i,
            j,
            k + 1,
        ) && #[trigger] g.reaches(v, corner(g, rows[i2]@[j2]@, k2), e as int) && holds(
            coords[e],
            corner_coords(i2, j2, k2),
        ) by {
        if g.reaches(v, here, e as int) {
            assert(cloned(value, coords[e]));
            assert(holds(coords[e], corner_coords(i, j, k)));
            assert(before(i, j, k, i, j, k + 1));
        } else {
            assert(old_coords.contains_key(e));
            let (i2, j2, k2) = choose|i2: int, j2: int, k2: int|
                0 <= i2 < rows.len() && 0 <= j2 < rows[i2]@.len() && 0 <= k2 < 6 && before(
                    i2,
                    j2,
                    k2,
                    i,
                    j,
                    k,
                ) && #[trigger] g.reaches(v, corner(g, rows[i2]@[j2]@, k2), e as int) && holds(
                    old_coords[e],
                    corner_coords(i2, j2, k2),
                );
            assert(before(i2, j2, k2, i, j, k + 1));
        }
    }
}

/// The corners before the end of one hexagon, or of one row, are those
/// before the start of the next.
proof fn lemma_written_next(
    g: GMapView,
    rows: Seq<Vec<Dart>>,
    coords: Map<usize, (isize, isize)>,
    i: int,
    j: int,
    k: int,
    i2: int,
    j2: int,
    k2: int,
)
    requires
        written(g, rows, coords, i, j, k),
        forall|a: int, b: int, c: int|
            0 <= a < rows.len() && 0 <= b < rows[a]@.len() && 0 <= c < 6 ==> #[trigger] before(
                a,
                b,
                c,
                i,
                j,
                k,
            ) == before(a, b, c, i2, j2, k2),
    ensures
        written(g, rows, coords, i2, j2, k2),
{
    let v = Alphas::vertex();
    assert forall|a: int, b: int, c: int, e: usize|
        0 <= a < rows.len() && 0 <= b < rows[a]@.len() && 0 <= c < 6 && before(a, b, c, i2, j2, k2)
            && #[trigger] g.reaches(v, corner(g, rows[a]@[b]@, c), e as int) implies coords.contains_key(
        e,
    ) by {
        assert(before(a, b, c, i, j, k) == before(a, b, c, i2, j2, k2));
    }
    assert forall|e: usize| #[trigger] coords.contains_key(e) implies exists|a: int, b: int, c: int|
        0 <= a < rows.len() && 0 <= b < rows[a]@.len() && 0 <= c < 6 && before(a, b, c, i2, j2, k2)
            && #[trigger] g.reaches(v, corner(g, rows[a]@[b]@, c), e as int) && holds(
            coords[e],
            corner_coords(a, b, c),
        ) by {
        let (a, b, c) = choose|a: int, b: int, c: int|
            0 <= a < rows.len() && 0 <= b < rows[a]@.len() && 0 <= c < 6 && before(a, b, c, i, j, k)
                && #[trigger] g.reaches(v, corner(g, rows[a]@[b]@, c), e as int) && holds(
                coords[e],
                corner_coords(a, b, c),
            );
        assert(before(a, b, c, i, j, k) == before(a, b, c, i2, j2, k2));
    }
}

} // verus!
