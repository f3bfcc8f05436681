//! The square grid: `n` rows of `m` quadrilaterals, sewn along their shared
//! edges.
//!
//! The square of row `r` and column `c` holds the eight darts from
//! `8 (r m + c)` on. Its first dart lies on its north edge at its north-west
//! vertex; darts `2 k` and `2 k + 1` are the two sides of corner `k`. The east
//! side (darts 6 and 5) is sewn to the west side (darts 1 and 2) of the next
//! square of the row, and the south side (darts 3 and 4) to the north side
//! (darts 0 and 7) of the square below.

use crate::dart::Dart;
use crate::gmap::{ints, GMap};
use crate::model::{chain_image, GMapView};
use itertools::Itertools;
use vstd::prelude::*;

verus! {

/// Every dart of a row paired with the next: what `Itertools::tuple_windows`
/// yields for pairs, collected.
#[verifier::external_body]
pub(crate) fn windows(row: &Vec<Dart>) -> (r: Vec<(Dart, Dart)>)
    ensures
        r@.len() == (if row@.len() == 0 {
            0
        } else {
            row@.len() - 1
        }),
        forall|k: int| 0 <= k < r@.len() ==> #[trigger] r@[k] == (row@[k], row@[k + 1]),
{
    row.iter().copied().tuple_windows().collect()
}

/// Dart `t` of the square of row `r` and column `c`, in a grid of `m`
/// columns.
pub open spec fn cell(m: int, r: int, c: int, t: int) -> int {
    8 * (r * m + c) + t
}

/// Square `(r, c)` comes before square `(i, j)`, row by row.
pub open spec fn lex_before(r: int, c: int, i: int, j: int) -> bool {
    r < i || (r == i && c < j)
}

/// Within a square, the side that `alpha_0` joins to side `t`.
pub open spec fn side0(t: int) -> int {
    if t == 0 {
        7
    } else if t == 7 {
        0
    } else if t % 2 == 1 {
        t + 1
    } else {
        t - 1
    }
}

/// Within a square, the side that `alpha_1` joins to side `t`.
pub open spec fn side1(t: int) -> int {
    if t % 2 == 0 {
        t + 1
    } else {
        t - 1
    }
}

/// The image under `alpha_2` of side `t` of square `(r, c)`, when the
/// squares before `(ei, ej)` are sewn to their east and those before
/// `(si, sj)` to their south. A side on the border of the grid is free.
pub open spec fn side2(
    n: int,
    m: int,
    r: int,
    c: int,
    t: int,
    ei: int,
    ej: int,
    si: int,
    sj: int,
) -> int {
    if t == 6 && c + 1 < m && lex_before(r, c, ei, ej) {
        cell(m, r, c + 1, 1)
    } else if t == 5 && c + 1 < m && lex_before(r, c, ei, ej) {
        cell(m, r, c + 1, 2)
    } else if t == 1 && c >= 1 && lex_before(r, c - 1, ei, ej) {
        cell(m, r, c - 1, 6)
    } else if t == 2 && c >= 1 && lex_before(r, c - 1, ei, ej) {
        cell(m, r, c - 1, 5)
    } else if t == 3 && r + 1 < n && lex_before(r, c, si, sj) {
        cell(m, r + 1, c, 0)
    } else if t == 4 && r + 1 < n && lex_before(r, c, si, sj) {
        cell(m, r + 1, c, 7)
    } else if t == 0 && r >= 1 && lex_before(r - 1, c, si, sj) {
        cell(m, r - 1, c, 3)
    } else if t == 7 && r >= 1 && lex_before(r - 1, c, si, sj) {
        cell(m, r - 1, c, 4)
    } else {
        cell(m, r, c, t)
    }
}

/// `g` holds the squares before `(ci, cj)` of a grid of `n` rows and `m`
/// columns, sewn to the east before `(ei, ej)` and to the south before
/// `(si, sj)`.
pub open spec fn is_grid(
    g: GMapView,
    n: int,
    m: int,
    ci: int,
    cj: int,
    ei: int,
    ej: int,
    si: int,
    sj: int,
) -> bool {
    &&& g.dimension == 2
    &&& g.ndarts() == cell(m, ci, cj, 0)
    &&& forall|d: int| 0 <= d < g.ndarts() ==> #[trigger] g.live(d)
    &&& forall|r: int, c: int, t: int|
        0 <= r && 0 <= c < m && 0 <= t < 8 && lex_before(r, c, ci, cj) ==> 0 <= #[trigger] cell(
            m,
            r,
            c,
            t,
        ) < g.ndarts()
    &&& forall|r: int, c: int, t: int|
        0 <= r && 0 <= c < m && 0 <= t < 8 && lex_before(r, c, ci, cj) ==> #[trigger] g.al(
            cell(m, r, c, t),
            0,
        ) == cell(m, r, c, side0(t))
    &&& forall|r: int, c: int, t: int|
        0 <= r && 0 <= c < m && 0 <= t < 8 && lex_before(r, c, ci, cj) ==> #[trigger] g.al(
            cell(m, r, c, t),
            1,
        ) == cell(m, r, c, side1(t))
    &&& forall|r: int, c: int, t: int|
        0 <= r && 0 <= c < m && 0 <= t < 8 && lex_before(r, c, ci, cj) ==> #[trigger] g.al(
            cell(m, r, c, t),
            2,
        ) == side2(n, m, r, c, t, ei, ej, si, sj)
}

/// `g` is the square grid of `n` rows and `m` columns.
pub open spec fn is_square_grid(g: GMapView, n: int, m: int) -> bool {
    is_grid(g, n, m, n, 0, n, 0, n, 0)
}

proof fn lemma_flat(m: int, r: int, c: int, r2: int, c2: int)
    by (nonlinear_arith)
    requires
        0 <= c < m,
        0 <= c2 < m,
        r * m + c == r2 * m + c2,
    ensures
        r == r2,
        c == c2,
{
}

/// Distinct sides of distinct squares are distinct darts.
proof fn lemma_cell_unique(m: int, r: int, c: int, t: int, r2: int, c2: int, t2: int)
    requires
        0 <= c < m,
        0 <= c2 < m,
        0 <= t < 8,
        0 <= t2 < 8,
        cell(m, r, c, t) == cell(m, r2, c2, t2),
    ensures
        r == r2,
        c == c2,
        t == t2,
{
    let q = r * m + c;
    let q2 = r2 * m + c2;
    assert(8 * q + t == 8 * q2 + t2);
    assert(q == q2);
    lemma_flat(m, r, c, r2, c2);
}

/// Distinct sides, or sides of distinct squares, are distinct darts.
proof fn lemma_cell_distinct(m: int, r: int, c: int, t: int, r2: int, c2: int, t2: int)
    requires
        0 <= c < m,
        0 <= c2 < m,
        0 <= t < 8,
        0 <= t2 < 8,
        r != r2 || c != c2 || t != t2,
    ensures
        cell(m, r, c, t) != cell(m, r2, c2, t2),
{
    if cell(m, r, c, t) == cell(m, r2, c2, t2) {
        lemma_cell_unique(m, r, c, t, r2, c2, t2);
    }
}

proof fn lemma_cell_row(m: int, i: int)
    by (nonlinear_arith)
    ensures
        i * m + m == (i + 1) * m + 0,
{
}

/// What a grid says of one side of one of its squares.
proof fn lemma_grid_cell(
    g: GMapView,
    n: int,
    m: int,
    ci: int,
    cj: int,
    ei: int,
    ej: int,
    si: int,
    sj: int,
    r: int,
    c: int,
    t: int,
)
    requires
        is_grid(g, n, m, ci, cj, ei, ej, si, sj),
        0 <= r,
        0 <= c < m,
        0 <= t < 8,
        lex_before(r, c, ci, cj),
    ensures
        0 <= cell(m, r, c, t) < g.ndarts(),
        g.live(cell(m, r, c, t)),
        g.al(cell(m, r, c, t), 0) == cell(m, r, c, side0(t)),
        g.al(cell(m, r, c, t), 1) == cell(m, r, c, side1(t)),
        g.al(cell(m, r, c, t), 2) == side2(n, m, r, c, t, ei, ej, si, sj),
{
    let d = cell(m, r, c, t);
    assert(g.al(d, 0) == cell(m, r, c, side0(t)));
    assert(g.al(d, 1) == cell(m, r, c, side1(t)));
    assert(g.al(d, 2) == side2(n, m, r, c, t, ei, ej, si, sj));
}

/// One more square, not sewn yet.
proof fn lemma_grid_add(g: GMapView, n: int, m: int, i: int, j: int)
    requires
        g.valid(),
        0 <= i,
        0 <= j < m,
        is_grid(g, n, m, i, j, 0, 0, 0, 0),
    ensures
        is_grid(g.with_cycle(1, 0, 4), n, m, i, j + 1, 0, 0, 0, 0),
{
    let h = g.with_cycle(1, 0, 4);
    g.lemma_with_chain_valid(1, 0, 4, true);
    let s = g.ndarts();
    assert(cell(m, i, j + 1, 0) == s + 8);
    assert forall|d: int| 0 <= d < h.ndarts() implies #[trigger] h.live(d) by {
        if d < s {
            assert(g.live(d));
        }
    }
    assert forall|r: int, c: int, t: int|
        0 <= r && 0 <= c < m && 0 <= t < 8 && lex_before(r, c, i, j + 1) implies 0 <= #[trigger] cell(
        m,
        r,
        c,
        t,
    ) < h.ndarts() by {
        if lex_before(r, c, i, j) {
            lemma_grid_cell(g, n, m, i, j, 0, 0, 0, 0, r, c, t);
            let d = cell(m, r, c, t);
            assert(0 <= d < s);
            assert(h.al(d, 0) == g.al(d, 0));
            assert(h.al(d, 1) == g.al(d, 1));
            assert(h.al(d, 2) == g.al(d, 2));
        } else {
            assert(r == i && c == j);
            assert(cell(m, r, c, t) == s + t);
            assert(h.al(s + t, 0) == chain_image(s, 4, 1, 0, true, t, 0));
            assert(h.al(s + t, 1) == chain_image(s, 4, 1, 0, true, t, 1));
            assert(h.al(s + t, 2) == chain_image(s, 4, 1, 0, true, t, 2));
        }
    }
    assert forall|r: int, c: int, t: int|
        0 <= r && 0 <= c < m && 0 <= t < 8 && lex_before(r, c, i, j + 1) implies #[trigger] h.al(
        cell(m, r, c, t),
        0,
    ) == cell(m, r, c, side0(t)) by {
        if lex_before(r, c, i, j) {
            lemma_grid_cell(g, n, m, i, j, 0, 0, 0, 0, r, c, t);
            let d = cell(m, r, c, t);
            assert(0 <= d < s);
            assert(h.al(d, 0) == g.al(d, 0));
            assert(h.al(d, 1) == g.al(d, 1));
            assert(h.al(d, 2) == g.al(d, 2));
        } else {
            assert(r == i && c == j);
            assert(cell(m, r, c, t) == s + t);
            assert(h.al(s + t, 0) == chain_image(s, 4, 1, 0, true, t, 0));
            assert(h.al(s + t, 1) == chain_image(s, 4, 1, 0, true, t, 1));
            assert(h.al(s + t, 2) == chain_image(s, 4, 1, 0, true, t, 2));
        }
    }
    assert forall|r: int, c: int, t: int|
        0 <= r && 0 <= c < m && 0 <= t < 8 && lex_before(r, c, i, j + 1) implies #[trigger] h.al(
        cell(m, r, c, t),
        1,
    ) == cell(m, r, c, side1(t)) by {
        if lex_before(r, c, i, j) {
            lemma_grid_cell(g, n, m, i, j, 0, 0, 0, 0, r, c, t);
            let d = cell(m, r, c, t);
            assert(0 <= d < s);
            assert(h.al(d, 0) == g.al(d, 0));
            assert(h.al(d, 1) == g.al(d, 1));
            assert(h.al(d, 2) == g.al(d, 2));
        } else {
            assert(r == i && c == j);
            assert(cell(m, r, c, t) == s + t);
            assert(h.al(s + t, 0) == chain_image(s, 4, 1, 0, true, t, 0));
            assert(h.al(s + t, 1) == chain_image(s, 4, 1, 0, true, t, 1));
            assert(h.al(s + t, 2) == chain_image(s, 4, 1, 0, true, t, 2));
        }
    }
    assert forall|r: int, c: int, t: int|
        0 <= r && 0 <= c < m && 0 <= t < 8 && lex_before(r, c, i, j + 1) implies #[trigger] h.al(
        cell(m, r, c, t),
        2,
    ) == side2(n, m, r, c, t, 0, 0, 0, 0) by {
        if lex_before(r, c, i, j) {
            lemma_grid_cell(g, n, m, i, j, 0, 0, 0, 0, r, c, t);
            let d = cell(m, r, c, t);
            assert(0 <= d < s);
            assert(h.al(d, 0) == g.al(d, 0));
            assert(h.al(d, 1) == g.al(d, 1));
            assert(h.al(d, 2) == g.al(d, 2));
        } else {
            assert(r == i && c == j);
            assert(cell(m, r, c, t) == s + t);
            assert(h.al(s + t, 0) == chain_image(s, 4, 1, 0, true, t, 0));
            assert(h.al(s + t, 1) == chain_image(s, 4, 1, 0, true, t, 1));
            assert(h.al(s + t, 2) == chain_image(s, 4, 1, 0, true, t, 2));
        }
    }
}

/// The end of a row of squares is the start of the next.
proof fn lemma_grid_next_row(
    g: GMapView,
    n: int,
    m: int,
    ci: int,
    ei: int,
    si: int,
    which: int,
)
    requires
        0 <= m,
        0 <= which < 3,
        is_grid(
            g,
            n,
            m,
            ci,
            if which == 0 {
                m
            } else {
                0
            },
            ei,
            if which == 1 {
                m
            } else {
                0
            },
            si,
            if which == 2 {
                m
            } else {
                0
            },
        ),
    ensures
        is_grid(
            g,
            n,
            m,
            if which == 0 {
                ci + 1
            } else {
                ci
            },
            0,
            if which == 1 {
                ei + 1
            } else {
                ei
            },
            0,
            if which == 2 {
                si + 1
            } else {
                si
            },
            0,
        ),
{
    lemma_cell_row(m, ci);
    let cj = if which == 0 {
        m
    } else {
        0
    };
    let ej = if which == 1 {
        m
    } else {
        0
    };
    let sj = if which == 2 {
        m
    } else {
        0
    };
    let ci2 = if which == 0 {
        ci + 1
    } else {
        ci
    };
    let ei2 = if which == 1 {
        ei + 1
    } else {
        ei
    };
    let si2 = if which == 2 {
        si + 1
    } else {
        si
    };
    assert forall|r: int, c: int, t: int|
        0 <= r && 0 <= c < m && 0 <= t < 8 && lex_before(r, c, ci2, 0) implies 0 <= #[trigger] cell(
        m,
        r,
        c,
        t,
    ) < g.ndarts() by {
        assert(lex_before(r, c, ci, cj));
        lemma_grid_cell(g, n, m, ci, cj, ei, ej, si, sj, r, c, t);
        assert(side2(n, m, r, c, t, ei2, 0, si2, 0) == side2(n, m, r, c, t, ei, ej, si, sj));
    }
    assert forall|r: int, c: int, t: int|
        0 <= r && 0 <= c < m && 0 <= t < 8 && lex_before(r, c, ci2, 0) implies #[trigger] g.al(
        cell(m, r, c, t),
        0,
    ) == cell(m, r, c, side0(t)) by {
        assert(lex_before(r, c, ci, cj));
        lemma_grid_cell(g, n, m, ci, cj, ei, ej, si, sj, r, c, t);
        assert(side2(n, m, r, c, t, ei2, 0, si2, 0) == side2(n, m, r, c, t, ei, ej, si, sj));
    }
    assert forall|r: int, c: int, t: int|
        0 <= r && 0 <= c < m && 0 <= t < 8 && lex_before(r, c, ci2, 0) implies #[trigger] g.al(
        cell(m, r, c, t),
        1,
    ) == cell(m, r, c, side1(t)) by {
        assert(lex_before(r, c, ci, cj));
        lemma_grid_cell(g, n, m, ci, cj, ei, ej, si, sj, r, c, t);
        assert(side2(n, m, r, c, t, ei2, 0, si2, 0) == side2(n, m, r, c, t, ei, ej, si, sj));
    }
    assert forall|r: int, c: int, t: int|
        0 <= r && 0 <= c < m && 0 <= t < 8 && lex_before(r, c, ci2, 0) implies #[trigger] g.al(
        cell(m, r, c, t),
        2,
    ) == side2(n, m, r, c, t, ei2, 0, si2, 0) by {
        assert(lex_before(r, c, ci, cj));
        lemma_grid_cell(g, n, m, ci, cj, ei, ej, si, sj, r, c, t);
        assert(side2(n, m, r, c, t, ei2, 0, si2, 0) == side2(n, m, r, c, t, ei, ej, si, sj));
    }
}

/// Sewing square `(i, j)` to its east neighbour.
proof fn lemma_grid_east(g: GMapView, n: int, m: int, i: int, j: int)
    requires
        g.valid(),
        0 <= i < n,
        0 <= j,
        j + 1 < m,
        is_grid(g, n, m, n, 0, i, j, 0, 0),
    ensures
        g.live(cell(m, i, j, 6)),
        g.live(cell(m, i, j + 1, 1)),
        g.al(cell(m, i, j, 6), 0) == cell(m, i, j, 5),
        g.al(cell(m, i, j + 1, 1), 0) == cell(m, i, j + 1, 2),
        g.is_free(cell(m, i, j, 6), 2),
        g.is_free(cell(m, i, j, 5), 2),
        g.is_free(cell(m, i, j + 1, 1), 2),
        g.is_free(cell(m, i, j + 1, 2), 2),
        is_grid(
            g.linked(2, cell(m, i, j, 6), cell(m, i, j + 1, 1)).linked(
                2,
                cell(m, i, j, 5),
                cell(m, i, j + 1, 2),
            ),
            n,
            m,
            n,
            0,
            i,
            j + 1,
            0,
            0,
        ),
{
    let x6 = cell(m, i, j, 6);
    let x5 = cell(m, i, j, 5);
    let y1 = cell(m, i, j + 1, 1);
    let y2 = cell(m, i, j + 1, 2);
    lemma_grid_square(g, n, m, i, j, i, j, 0, 0);
    lemma_grid_square(g, n, m, i, j + 1, i, j, 0, 0);
    assert(g.al(x6, 0) == x5 && g.al(y1, 0) == y2);
    assert(g.al(x6, 2) == x6 && g.al(x5, 2) == x5 && g.al(y1, 2) == y1 && g.al(y2, 2) == y2);
    assert(g.live(x6) && g.live(x5) && g.live(y1) && g.live(y2));
    lemma_cell_distinct(m, i, j, 5, i, j + 1, 2);
    lemma_cell_distinct(m, i, j, 5, i, j + 1, 1);
    lemma_cell_distinct(m, i, j, 6, i, j + 1, 2);
    lemma_cell_distinct(m, i, j, 6, i, j + 1, 1);
    let g1 = g.linked(2, x6, y1);
    g.lemma_linked_sound(2, x6, y1);
    assert(g1.is_free(x5, 2) && g1.is_free(y2, 2));
    let g2 = g1.linked(2, x5, y2);
    g1.lemma_linked_sound(2, x5, y2);
    assert forall|d: int| 0 <= d < g2.ndarts() implies #[trigger] g2.live(d) by {
        assert(g.live(d));
    }
    assert forall|r: int, c: int, t: int|
        0 <= r && 0 <= c < m && 0 <= t < 8 && lex_before(r, c, n, 0) implies 0 <= #[trigger] cell(
        m,
        r,
        c,
        t,
    ) < g2.ndarts() by {
        let d = cell(m, r, c, t);
        lemma_grid_cell(g, n, m, n, 0, i, j, 0, 0, r, c, t);
        assert(g1.al(d, 0) == g.al(d, 0) && g2.al(d, 0) == g1.al(d, 0));
        assert(g1.al(d, 1) == g.al(d, 1) && g2.al(d, 1) == g1.al(d, 1));
        if d == x6 {
            lemma_cell_unique(m, r, c, t, i, j, 6);
        } else if d == x5 {
            lemma_cell_unique(m, r, c, t, i, j, 5);
        } else if d == y1 {
            lemma_cell_unique(m, r, c, t, i, j + 1, 1);
        } else if d == y2 {
            lemma_cell_unique(m, r, c, t, i, j + 1, 2);
        } else {
            assert(g1.al(d, 2) == g.al(d, 2));
            assert(g2.al(d, 2) == g1.al(d, 2));
            assert(!(r == i && c == j && (t == 6 || t == 5)));
            assert(!(r == i && c == j + 1 && (t == 1 || t == 2)));
        }
    }
    assert forall|r: int, c: int, t: int|
        0 <= r && 0 <= c < m && 0 <= t < 8 && lex_before(r, c, n, 0) implies #[trigger] g2.al(
        cell(m, r, c, t),
        0,
    ) == cell(m, r, c, side0(t)) by {
        let d = cell(m, r, c, t);
        lemma_grid_cell(g, n, m, n, 0, i, j, 0, 0, r, c, t);
        assert(g1.al(d, 0) == g.al(d, 0) && g2.al(d, 0) == g1.al(d, 0));
        assert(g1.al(d, 1) == g.al(d, 1) && g2.al(d, 1) == g1.al(d, 1));
        if d == x6 {
            lemma_cell_unique(m, r, c, t, i, j, 6);
        } else if d == x5 {
            lemma_cell_unique(m, r, c, t, i, j, 5);
        } else if d == y1 {
            lemma_cell_unique(m, r, c, t, i, j + 1, 1);
        } else if d == y2 {
            lemma_cell_unique(m, r, c, t, i, j + 1, 2);
        } else {
            assert(g1.al(d, 2) == g.al(d, 2));
            assert(g2.al(d, 2) == g1.al(d, 2));
            assert(!(r == i && c == j && (t == 6 || t == 5)));
            assert(!(r == i && c == j + 1 && (t == 1 || t == 2)));
        }
    }
    assert forall|r: int, c: int, t: int|
        0 <= r && 0 <= c < m && 0 <= t < 8 && lex_before(r, c, n, 0) implies #[trigger] g2.al(
        cell(m, r, c, t),
        1,
    ) == cell(m, r, c, side1(t)) by {
        let d = cell(m, r, c, t);
        lemma_grid_cell(g, n, m, n, 0, i, j, 0, 0, r, c, t);
        assert(g1.al(d, 0) == g.al(d, 0) && g2.al(d, 0) == g1.al(d, 0));
        assert(g1.al(d, 1) == g.al(d, 1) && g2.al(d, 1) == g1.al(d, 1));
        if d == x6 {
            lemma_cell_unique(m, r, c, t, i, j, 6);
        } else if d == x5 {
            lemma_cell_unique(m, r, c, t, i, j, 5);
        } else if d == y1 {
            lemma_cell_unique(m, r, c, t, i, j + 1, 1);
        } else if d == y2 {
            lemma_cell_unique(m, r, c, t, i, j + 1, 2);
        } else {
            assert(g1.al(d, 2) == g.al(d, 2));
            assert(g2.al(d, 2) == g1.al(d, 2));
            assert(!(r == i && c == j && (t == 6 || t == 5)));
            assert(!(r == i && c == j + 1 && (t == 1 || t == 2)));
        }
    }
    assert forall|r: int, c: int, t: int|
        0 <= r && 0 <= c < m && 0 <= t < 8 && lex_before(r, c, n, 0) implies #[trigger] g2.al(
        cell(m, r, c, t),
        2,
    ) == side2(n, m, r, c, t, i, j + 1, 0, 0) by {
        let d = cell(m, r, c, t);
        lemma_grid_cell(g, n, m, n, 0, i, j, 0, 0, r, c, t);
        assert(g1.al(d, 0) == g.al(d, 0) && g2.al(d, 0) == g1.al(d, 0));
        assert(g1.al(d, 1) == g.al(d, 1) && g2.al(d, 1) == g1.al(d, 1));
        if d == x6 {
            lemma_cell_unique(m, r, c, t, i, j, 6);
        } else if d == x5 {
            lemma_cell_unique(m, r, c, t, i, j, 5);
        } else if d == y1 {
            lemma_cell_unique(m, r, c, t, i, j + 1, 1);
        } else if d == y2 {
            lemma_cell_unique(m, r, c, t, i, j + 1, 2);
        } else {
            assert(g1.al(d, 2) == g.al(d, 2));
            assert(g2.al(d, 2) == g1.al(d, 2));
            assert(!(r == i && c == j && (t == 6 || t == 5)));
            assert(!(r == i && c == j + 1 && (t == 1 || t == 2)));
        }
    }
}

/// Sewing square `(i, j)` to its south neighbour.
proof fn lemma_grid_south(g: GMapView, n: int, m: int, i: int, j: int)
    requires
        g.valid(),
        0 <= i,
        i + 1 < n,
        0 <= j < m,
        is_grid(g, n, m, n, 0, n, 0, i, j),
    ensures
        g.live(cell(m, i, j, 3)),
        g.live(cell(m, i + 1, j, 0)),
        g.al(cell(m, i, j, 3), 0) == cell(m, i, j, 4),
        g.al(cell(m, i + 1, j, 0), 0) == cell(m, i + 1, j, 7),
        g.is_free(cell(m, i, j, 3), 2),
        g.is_free(cell(m, i, j, 4), 2),
        g.is_free(cell(m, i + 1, j, 0), 2),
        g.is_free(cell(m, i + 1, j, 7), 2),
        is_grid(
            g.linked(2, cell(m, i, j, 3), cell(m, i + 1, j, 0)).linked(
                2,
                cell(m, i, j, 4),
                cell(m, i + 1, j, 7),
            ),
            n,
            m,
            n,
            0,
            n,
            0,
            i,
            j + 1,
        ),
{
    let x3 = cell(m, i, j, 3);
    let x4 = cell(m, i, j, 4);
    let y0 = cell(m, i + 1, j, 0);
    let y7 = cell(m, i + 1, j, 7);
    lemma_grid_square(g, n, m, i, j, n, 0, i, j);
    lemma_grid_square(g, n, m, i + 1, j, n, 0, i, j);
    assert(g.al(x3, 0) == x4 && g.al(y0, 0) == y7);
    assert(g.al(x3, 2) == x3 && g.al(x4, 2) == x4 && g.al(y0, 2) == y0 && g.al(y7, 2) == y7);
    assert(g.live(x3) && g.live(x4) && g.live(y0) && g.live(y7));
    lemma_cell_distinct(m, i, j, 3, i + 1, j, 0);
    lemma_cell_distinct(m, i, j, 3, i + 1, j, 7);
    lemma_cell_distinct(m, i, j, 4, i + 1, j, 0);
    lemma_cell_distinct(m, i, j, 4, i + 1, j, 7);
    let g1 = g.linked(2, x3, y0);
    g.lemma_linked_sound(2, x3, y0);
    assert(g1.is_free(x4, 2) && g1.is_free(y7, 2));
    let g2 = g1.linked(2, x4, y7);
    g1.lemma_linked_sound(2, x4, y7);
    assert forall|d: int| 0 <= d < g2.ndarts() implies #[trigger] g2.live(d) by {
        assert(g.live(d));
    }
    assert forall|r: int, c: int, t: int|
        0 <= r && 0 <= c < m && 0 <= t < 8 && lex_before(r, c, n, 0) implies 0 <= #[trigger] cell(
        m,
        r,
        c,
        t,
    ) < g2.ndarts() by {
        let d = cell(m, r, c, t);
        lemma_grid_cell(g, n, m, n, 0, n, 0, i, j, r, c, t);
        assert(g1.al(d, 0) == g.al(d, 0) && g2.al(d, 0) == g1.al(d, 0));
        assert(g1.al(d, 1) == g.al(d, 1) && g2.al(d, 1) == g1.al(d, 1));
        if d == x3 {
            lemma_cell_unique(m, r, c, t, i, j, 3);
        } else if d == x4 {
            lemma_cell_unique(m, r, c, t, i, j, 4);
        } else if d == y0 {
            lemma_cell_unique(m, r, c, t, i + 1, j, 0);
        } else if d == y7 {
            lemma_cell_unique(m, r, c, t, i + 1, j, 7);
        } else {
            assert(g1.al(d, 2) == g.al(d, 2));
            assert(g2.al(d, 2) == g1.al(d, 2));
            assert(!(r == i && c == j && (t == 3 || t == 4)));
            assert(!(r == i + 1 && c == j && (t == 0 || t == 7)));
        }
    }
    assert forall|r: int, c: int, t: int|
        0 <= r && 0 <= c < m && 0 <= t < 8 && lex_before(r, c, n, 0) implies #[trigger] g2.al(
        cell(m, r, c, t),
        0,
    ) == cell(m, r, c, side0(t)) by {
        let d = cell(m, r, c, t);
        lemma_grid_cell(g, n, m, n, 0, n, 0, i, j, r, c, t);
        assert(g1.al(d, 0) == g.al(d, 0) && g2.al(d, 0) == g1.al(d, 0));
        assert(g1.al(d, 1) == g.al(d, 1) && g2.al(d, 1) == g1.al(d, 1));
        if d == x3 {
            lemma_cell_unique(m, r, c, t, i, j, 3);
        } else if d == x4 {
            lemma_cell_unique(m, r, c, t, i, j, 4);
        } else if d == y0 {
            lemma_cell_unique(m, r, c, t, i + 1, j, 0);
        } else if d == y7 {
            lemma_cell_unique(m, r, c, t, i + 1, j, 7);
        } else {
            assert(g1.al(d, 2) == g.al(d, 2));
            assert(g2.al(d, 2) == g1.al(d, 2));
            assert(!(r == i && c == j && (t == 3 || t == 4)));
            assert(!(r == i + 1 && c == j && (t == 0 || t == 7)));
        }
    }
    assert forall|r: int, c: int, t: int|
        0 <= r && 0 <= c < m && 0 <= t < 8 && lex_before(r, c, n, 0) implies #[trigger] g2.al(
        cell(m, r, c, t),
        1,
    ) == cell(m, r, c, side1(t)) by {
        let d = cell(m, r, c, t);
        lemma_grid_cell(g, n, m, n, 0, n, 0, i, j, r, c, t);
        assert(g1.al(d, 0) == g.al(d, 0) && g2.al(d, 0) == g1.al(d, 0));
        assert(g1.al(d, 1) == g.al(d, 1) && g2.al(d, 1) == g1.al(d, 1));
        if d == x3 {
            lemma_cell_unique(m, r, c, t, i, j, 3);
        } else if d == x4 {
            lemma_cell_unique(m, r, c, t, i, j, 4);
        } else if d == y0 {
            lemma_cell_unique(m, r, c, t, i + 1, j, 0);
        } else if d == y7 {
            lemma_cell_unique(m, r, c, t, i + 1, j, 7);
        } else {
            assert(g1.al(d, 2) == g.al(d, 2));
            assert(g2.al(d, 2) == g1.al(d, 2));
            assert(!(r == i && c == j && (t == 3 || t == 4)));
            assert(!(r == i + 1 && c == j && (t == 0 || t == 7)));
        }
    }
    assert forall|r: int, c: int, t: int|
        0 <= r && 0 <= c < m && 0 <= t < 8 && lex_before(r, c, n, 0) implies #[trigger] g2.al(
        cell(m, r, c, t),
        2,
    ) == side2(n, m, r, c, t, n, 0, i, j + 1) by {
        let d = cell(m, r, c, t);
        lemma_grid_cell(g, n, m, n, 0, n, 0, i, j, r, c, t);
        assert(g1.al(d, 0) == g.al(d, 0) && g2.al(d, 0) == g1.al(d, 0));
        assert(g1.al(d, 1) == g.al(d, 1) && g2.al(d, 1) == g1.al(d, 1));
        if d == x3 {
            lemma_cell_unique(m, r, c, t, i, j, 3);
        } else if d == x4 {
            lemma_cell_unique(m, r, c, t, i, j, 4);
        } else if d == y0 {
            lemma_cell_unique(m, r, c, t, i + 1, j, 0);
        } else if d == y7 {
            lemma_cell_unique(m, r, c, t, i + 1, j, 7);
        } else {
            assert(g1.al(d, 2) == g.al(d, 2));
            assert(g2.al(d, 2) == g1.al(d, 2));
            assert(!(r == i && c == j && (t == 3 || t == 4)));
            assert(!(r == i + 1 && c == j && (t == 0 || t == 7)));
        }
    }
}

/// A square of the last column has no east neighbour, and a square of the
/// last row no south neighbour.
proof fn lemma_grid_border(
    g: GMapView,
    n: int,
    m: int,
    ei: int,
    ej: int,
    si: int,
    sj: int,
    east: bool,
)
    requires
        0 <= ei,
        0 <= si,
        is_grid(g, n, m, n, 0, ei, ej, si, sj),
        east ==> ej + 1 == m || (m == 0 && ej == 0),
        !east ==> si + 1 == n && sj == 0,
    ensures
        east ==> is_grid(g, n, m, n, 0, ei, m, si, sj),
        !east ==> is_grid(g, n, m, n, 0, ei, ej, n, 0),
{
    let ej2 = if east {
        m
    } else {
        ej
    };
    let si2 = if east {
        si
    } else {
        n
    };
    let sj2 = if east {
        sj
    } else {
        0
    };
    assert forall|r: int, c: int, t: int|
        0 <= r && 0 <= c < m && 0 <= t < 8 && lex_before(r, c, n, 0) implies 0 <= #[trigger] cell(
        m,
        r,
        c,
        t,
    ) < g.ndarts() by {
        lemma_grid_cell(g, n, m, n, 0, ei, ej, si, sj, r, c, t);
        assert(side2(n, m, r, c, t, ei, ej2, si2, sj2) == side2(n, m, r, c, t, ei, ej, si, sj));
    }
    assert forall|r: int, c: int, t: int|
        0 <= r && 0 <= c < m && 0 <= t < 8 && lex_before(r, c, n, 0) implies #[trigger] g.al(
        cell(m, r, c, t),
        0,
    ) == cell(m, r, c, side0(t)) by {
        lemma_grid_cell(g, n, m, n, 0, ei, ej, si, sj, r, c, t);
        assert(side2(n, m, r, c, t, ei, ej2, si2, sj2) == side2(n, m, r, c, t, ei, ej, si, sj));
    }
    assert forall|r: int, c: int, t: int|
        0 <= r && 0 <= c < m && 0 <= t < 8 && lex_before(r, c, n, 0) implies #[trigger] g.al(
        cell(m, r, c, t),
        1,
    ) == cell(m, r, c, side1(t)) by {
        lemma_grid_cell(g, n, m, n, 0, ei, ej, si, sj, r, c, t);
        assert(side2(n, m, r, c, t, ei, ej2, si2, sj2) == side2(n, m, r, c, t, ei, ej, si, sj));
    }
    assert forall|r: int, c: int, t: int|
        0 <= r && 0 <= c < m && 0 <= t < 8 && lex_before(r, c, n, 0) implies #[trigger] g.al(
        cell(m, r, c, t),
        2,
    ) == side2(n, m, r, c, t, ei, ej2, si2, sj2) by {
        lemma_grid_cell(g, n, m, n, 0, ei, ej, si, sj, r, c, t);
        assert(side2(n, m, r, c, t, ei, ej2, si2, sj2) == side2(n, m, r, c, t, ei, ej, si, sj));
    }
}

/// What a grid says of one of its squares.
proof fn lemma_grid_square(
    g: GMapView,
    n: int,
    m: int,
    r: int,
    c: int,
    ei: int,
    ej: int,
    si: int,
    sj: int,
)
    requires
        0 <= r < n,
        0 <= c < m,
        is_grid(g, n, m, n, 0, ei, ej, si, sj),
    ensures
        g.dimension == 2,
        forall|t: int| 0 <= t < 8 ==> 0 <= #[trigger] cell(m, r, c, t) < g.ndarts(),
        forall|t: int|
            0 <= t < 8 ==> #[trigger] g.al(cell(m, r, c, t), 0) == cell(m, r, c, side0(t)),
        forall|t: int|
            0 <= t < 8 ==> #[trigger] g.al(cell(m, r, c, t), 1) == cell(m, r, c, side1(t)),
        forall|t: int|
            0 <= t < 8 ==> #[trigger] g.al(cell(m, r, c, t), 2) == side2(
                n,
                m,
                r,
                c,
                t,
                ei,
                ej,
                si,
                sj,
            ),
        forall|t: int| 0 <= t < 8 ==> g.live(#[trigger] cell(m, r, c, t)),
{
    assert(lex_before(r, c, n, 0));
    assert forall|t: int| 0 <= t < 8 implies g.live(#[trigger] cell(m, r, c, t)) by {
        lemma_grid_cell(g, n, m, n, 0, ei, ej, si, sj, r, c, t);
    }
    assert forall|t: int| 0 <= t < 8 implies 0 <= #[trigger] cell(m, r, c, t) < g.ndarts() by {
        lemma_grid_cell(g, n, m, n, 0, ei, ej, si, sj, r, c, t);
    }
}

/// Where two short walks from the first dart of a square lead.
proof fn lemma_grid_walks(g: GMapView, n: int, m: int, r: int, c: int)
    requires
        0 <= r < n,
        0 <= c < m,
        g.dimension == 2,
        forall|t: int| 0 <= t < 8 ==> 0 <= #[trigger] cell(m, r, c, t) < g.ndarts(),
        forall|t: int|
            0 <= t < 8 ==> #[trigger] g.al(cell(m, r, c, t), 0) == cell(m, r, c, side0(t)),
        forall|t: int|
            0 <= t < 8 ==> #[trigger] g.al(cell(m, r, c, t), 1) == cell(m, r, c, side1(t)),
    ensures
        g.walk(cell(m, r, c, 0), seq![0int, 1int]) == cell(m, r, c, 6),
        g.walk(cell(m, r, c, 0), seq![1int]) == cell(m, r, c, 1),
        g.walk(cell(m, r, c, 0), seq![1int, 0int, 1int]) == cell(m, r, c, 3),
        g.has_dart(cell(m, r, c, 0)),
{
    let d0 = cell(m, r, c, 0);
    let d1 = cell(m, r, c, 1);
    let d2 = cell(m, r, c, 2);
    let d3 = cell(m, r, c, 3);
    let d6 = cell(m, r, c, 6);
    let d7 = cell(m, r, c, 7);
    assert(g.al(d0, 0) == d7 && g.al(d7, 1) == d6);
    assert(g.al(d0, 1) == d1 && g.al(d1, 0) == d2 && g.al(d2, 1) == d3);
    let e = Seq::<int>::empty();
    g.lemma_walk_push(d0, e, 0);
    g.lemma_walk_push(d0, e.push(0), 1);
    assert(e.push(0).push(1) =~= seq![0int, 1int]);
    g.lemma_walk_push(d0, e, 1);
    assert(e.push(1) =~= seq![1int]);
    g.lemma_walk_push(d0, e.push(1), 0);
    g.lemma_walk_push(d0, e.push(1).push(0), 1);
    assert(e.push(1).push(0).push(1) =~= seq![1int, 0int, 1int]);
}

/// The grid of `n` rows of `m` squares, with the first dart of every square,
/// row by row: the dart on its north edge at its north-west vertex.
pub fn new(n: usize, m: usize) -> (r: (GMap, Vec<Vec<Dart>>))
    ensures
        r.0.wf(),
        is_square_grid(r.0@, n as int, m as int),
        r.1@.len() == n,
        forall|i: int| 0 <= i < n ==> (#[trigger] r.1@[i])@.len() == m,
        forall|i: int, j: int|
            0 <= i < n && 0 <= j < m ==> (#[trigger] r.1@[i]@[j])@ == cell(m as int, i, j, 0),
{
    let mut g: GMap = GMap::empty(2).unwrap();
    let ghost gn = n as int;
    let ghost gm = m as int;
    proof {
        assert(0 * gm + 0 == 0) by (nonlinear_arith);
    }
    let mut rows: Vec<Vec<Dart>> = Vec::new();
    let mut i: usize = 0;
    while i < n
        invariant
            i <= n,
            gn == n,
            gm == m,
            g.wf(),
            is_grid(g@, gn, gm, i as int, 0, 0, 0, 0, 0),
            rows@.len() == i,
            forall|a: int| 0 <= a < i ==> (#[trigger] rows@[a])@.len() == m,
            forall|a: int, b: int|
                0 <= a < i && 0 <= b < m ==> (#[trigger] rows@[a]@[b])@ == cell(gm, a, b, 0),
        decreases n - i,
    {
        let mut row: Vec<Dart> = Vec::new();
        let mut j: usize = 0;
        while j < m
            invariant
                i < n,
                j <= m,
                gn == n,
                gm == m,
                g.wf(),
                is_grid(g@, gn, gm, i as int, j as int, 0, 0, 0, 0),
                row@.len() == j,
                forall|b: int| 0 <= b < j ==> (#[trigger] row@[b])@ == cell(gm, i as int, b, 0),
            decreases m - j,
        {
            proof {
                lemma_grid_add(g@, gn, gm, i as int, j as int);
            }
            let s = g.add_polygon(4);
            row.push(s);
            j += 1;
        }
        proof {
            lemma_grid_next_row(g@, gn, gm, i as int, 0, 0, 0);
        }
        rows.push(row);
        i += 1;
    }
    // sew every square to its east neighbour
    let mut i: usize = 0;
    while i < n
        invariant
            i <= n,
            gn == n,
            gm == m,
            g.wf(),
            is_grid(g@, gn, gm, gn, 0, i as int, 0, 0, 0),
            rows@.len() == n,
            forall|a: int| 0 <= a < n ==> (#[trigger] rows@[a])@.len() == m,
            forall|a: int, b: int|
                0 <= a < n && 0 <= b < m ==> (#[trigger] rows@[a]@[b])@ == cell(gm, a, b, 0),
        decreases n - i,
    {
        let pairs = windows(&rows[i]);
        let mut j: usize = 0;
        proof {
            assert(rows@[i as int]@.len() == m);
            assert forall|b: int| 0 <= b < pairs@.len() implies (#[trigger] pairs@[b]).0@ == cell(
                gm,
                i as int,
                b,
                0,
            ) && pairs@[b].1@ == cell(gm, i as int, b + 1, 0) by {
                assert(rows@[i as int]@[b]@ == cell(gm, i as int, b, 0));
                assert(rows@[i as int]@[b + 1]@ == cell(gm, i as int, b + 1, 0));
            }
        }
        while j < pairs.len()
            invariant
                i < n,
                j <= pairs@.len(),
                pairs@.len() + 1 == m || (m == 0 && pairs@.len() == 0),
                gn == n,
                gm == m,
                g.wf(),
                is_grid(g@, gn, gm, gn, 0, i as int, j as int, 0, 0),
                forall|b: int|
                    0 <= b < pairs@.len() ==> (#[trigger] pairs@[b]).0@ == cell(gm, i as int, b, 0)
                        && pairs@[b].1@ == cell(gm, i as int, b + 1, 0),
            decreases pairs@.len() - j,
        {
            let s0: Dart = pairs[j].0;
            let s1: Dart = pairs[j].1;
            proof {
                lemma_grid_square(g@, gn, gm, i as int, j as int, i as int, j as int, 0, 0);
                lemma_grid_square(g@, gn, gm, i as int, j as int + 1, i as int, j as int, 0, 0);
                lemma_grid_walks(g@, gn, gm, i as int, j as int);
                lemma_grid_walks(g@, gn, gm, i as int, j as int + 1);
                assert(g@.has_index(0) && g@.has_index(1));
            }
            let east: [usize; 2] = [0, 1];
            let west: [usize; 1] = [1];
            proof {
                assert(ints(east@) =~= seq![0int, 1int]);
                assert(ints(west@) =~= seq![1int]);
            }
            let x = g.al(s0, &east);
            let y = g.al(s1, &west);
            proof {
                lemma_grid_east(g@, gn, gm, i as int, j as int);
                lemma_cell_distinct(gm, i as int, j as int, 6, i as int, j as int + 1, 1);
                lemma_cell_distinct(gm, i as int, j as int, 5, i as int, j as int + 1, 1);
            }
            g.sew_pair(2, x, y);
            j += 1;
        }
        proof {
            lemma_grid_border(g@, gn, gm, i as int, j as int, 0, 0, true);
            lemma_grid_next_row(g@, gn, gm, gn, i as int, 0, 1);
        }
        i += 1;
    }
    // sew every square to its south neighbour
    let mut i: usize = 0;
    while i < n && i + 1 < n
        invariant
            i < n || n == 0,
            gn == n,
            gm == m,
            g.wf(),
            is_grid(g@, gn, gm, gn, 0, gn, 0, i as int, 0),
            rows@.len() == n,
            forall|a: int| 0 <= a < n ==> (#[trigger] rows@[a])@.len() == m,
            forall|a: int, b: int|
                0 <= a < n && 0 <= b < m ==> (#[trigger] rows@[a]@[b])@ == cell(gm, a, b, 0),
        decreases n - i,
    {
        let mut j: usize = 0;
        proof {
            assert(rows@[i as int]@.len() == m);
            assert(rows@[i as int + 1]@.len() == m);
        }
        while j < m
            invariant
                i + 1 < n,
                j <= m,
                gn == n,
                gm == m,
                g.wf(),
                is_grid(g@, gn, gm, gn, 0, gn, 0, i as int, j as int),
                rows@.len() == n,
                rows@[i as int]@.len() == m,
                rows@[i as int + 1]@.len() == m,
                forall|a: int, b: int|
                    0 <= a < n && 0 <= b < rows@[a]@.len() && b < m ==> (#[trigger] rows@[a]@[b])@
                        == cell(gm, a, b, 0),
            decreases m - j,
        {
            let s0: Dart = rows[i][j];
            let s1: Dart = rows[i + 1][j];
            proof {
                assert(rows@[i as int]@[j as int]@ == cell(gm, i as int, j as int, 0));
                assert(rows@[i as int + 1]@[j as int]@ == cell(gm, i as int + 1, j as int, 0));
                lemma_grid_square(g@, gn, gm, i as int, j as int, gn, 0, i as int, j as int);
                lemma_grid_walks(g@, gn, gm, i as int, j as int);
                assert(g@.has_index(0) && g@.has_index(1));
            }
            let south: [usize; 3] = [1, 0, 1];
            proof {
                assert(ints(south@) =~= seq![1int, 0int, 1int]);
            }
            let x = g.al(s0, &south);
            proof {
                lemma_grid_south(g@, gn, gm, i as int, j as int);
                lemma_cell_distinct(gm, i as int, j as int, 3, i as int + 1, j as int, 0);
                lemma_cell_distinct(gm, i as int, j as int, 4, i as int + 1, j as int, 0);
            }
            g.sew_pair(2, x, s1);
            j += 1;
        }
        proof {
            lemma_grid_next_row(g@, gn, gm, gn, gn, i as int, 2);
        }
        i += 1;
    }
    proof {
        if n > 0 {
            lemma_grid_border(g@, gn, gm, gn, 0, i as int, 0, false);
        }
    }
    (g, rows)
}

/// The darts at the vertices of a grid of squares, row by row: for every
/// square its first dart, at its north-west vertex; at the end of every row
/// the dart at the north-east vertex of the last square; and, for the last
/// row of squares, one more row for the vertices on its south side.
pub fn vertex_grid(g: &GMap, squares: &Vec<Vec<Dart>>) -> (r: Vec<Vec<Dart>>)
    requires
        g.wf_links(),
        g@.dimension >= 1,
        forall|i: int, j: int|
            0 <= i < squares@.len() && 0 <= j < squares@[i]@.len() ==> g@.has_dart(
                (#[trigger] squares@[i]@[j])@,
            ),
    ensures
        r@.len() == (if squares@.len() == 0 {
            0
        } else {
            squares@.len() + 1
        }),
        forall|i: int|
            0 <= i < squares@.len() ==> (#[trigger] r@[i])@.len() == (if squares@[i]@.len() == 0 {
                0
            } else {
                squares@[i]@.len() + 1
            }),
        forall|i: int, j: int|
            0 <= i < squares@.len() && 0 <= j < squares@[i]@.len() ==> #[trigger] r@[i]@[j]
                == squares@[i]@[j],
        forall|i: int|
            0 <= i < squares@.len() && squares@[i]@.len() > 0 ==> (#[trigger] r@[i])@[squares@[i]@.len() as int]@
                == g@.al(squares@[i]@[squares@[i]@.len() - 1]@, 0),
        squares@.len() > 0 ==> {
            let last = squares@[squares@.len() - 1]@;
            let south = r@[squares@.len() as int]@;
            &&& south.len() == (if last.len() == 0 {
                0
            } else {
                last.len() + 1
            })
            &&& forall|j: int|
                0 <= j < last.len() ==> (#[trigger] south[j])@ == g@.walk(
                    last[j]@,
                    seq![1int, 0int, 1int],
                )
            &&& last.len() > 0 ==> south[last.len() as int]@ == g@.walk(
                last[last.len() - 1]@,
                seq![1int, 0int, 1int, 0int],
            )
        },
{
    let mut out: Vec<Vec<Dart>> = Vec::new();
    let mut i: usize = 0;
    while i < squares.len()
        invariant
            i <= squares@.len(),
            g.wf_links(),
            g@.dimension >= 1,
            forall|a: int, b: int|
                0 <= a < squares@.len() && 0 <= b < squares@[a]@.len() ==> g@.has_dart(
                    (#[trigger] squares@[a]@[b])@,
                ),
            out@.len() == i,
            forall|a: int|
                0 <= a < i ==> (#[trigger] out@[a])@.len() == (if squares@[a]@.len() == 0 {
                    0
                } else {
                    squares@[a]@.len() + 1
                }),
            forall|a: int, b: int|
                0 <= a < i && 0 <= b < squares@[a]@.len() ==> #[trigger] out@[a]@[b]
                    == squares@[a]@[b],
            forall|a: int|
                0 <= a < i && squares@[a]@.len() > 0 ==> (#[trigger] out@[a])@[squares@[a]@.len() as int]@
                    == g@.al(squares@[a]@[squares@[a]@.len() - 1]@, 0),
        decreases squares@.len() - i,
    {
        let row = &squares[i];
        let mut v: Vec<Dart> = Vec::new();
        let mut j: usize = 0;
        while j < row.len()
            invariant
                j <= row@.len(),
                v@.len() == j,
                forall|b: int| 0 <= b < j ==> #[trigger] v@[b] == row@[b],
            decreases row@.len() - j,
        {
            v.push(row[j]);
            j += 1;
        }
        if row.len() > 0 {
            let last: Dart = row[row.len() - 1];
            proof {
                assert(g@.has_dart(squares@[i as int]@[row@.len() - 1]@));
                assert(g@.has_index(0));
            }
            v.push(g.al1(last, 0));
        }
        out.push(v);
        i += 1;
    }
    if squares.len() > 0 {
        let row = &squares[squares.len() - 1];
        let mut v: Vec<Dart> = Vec::new();
        let mut j: usize = 0;
        while j < row.len()
            invariant
                j <= row@.len(),
                g.wf_links(),
                g@.dimension >= 1,
                forall|b: int| 0 <= b < row@.len() ==> g@.has_dart((#[trigger] row@[b])@),
                v@.len() == j,
                forall|b: int|
                    0 <= b < j ==> (#[trigger] v@[b])@ == g@.walk(row@[b]@, seq![1int, 0int, 1int]),
            decreases row@.len() - j,
        {
            let south: [usize; 3] = [1, 0, 1];
            proof {
                assert(g@.has_dart(row@[j as int]@));
                assert(ints(south@) =~= seq![1int, 0int, 1int]);
                assert(g@.has_index(0) && g@.has_index(1));
            }
            v.push(g.al(row[j], &south));
            j += 1;
        }
        if row.len() > 0 {
            let last: Dart = row[row.len() - 1];
            let corner: [usize; 4] = [1, 0, 1, 0];
            proof {
                assert(g@.has_dart(row@[row@.len() - 1]@));
                assert(ints(corner@) =~= seq![1int, 0int, 1int, 0int]);
                assert(g@.has_index(0) && g@.has_index(1));
            }
            v.push(g.al(last, &corner));
        }
        out.push(v);
    }
    out
}

} // verus!
