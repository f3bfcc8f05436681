use gmap_folding::dart::{Alphas, Dart};
use gmap_folding::grids::square;

#[test]
fn square_grid_counts() {
    let (g, rows) = square::new(3, 4);
    assert!(g.check_valid().is_ok());
    assert_eq!(g.ndarts(), 8 * 12);
    assert_eq!(rows.len(), 3);
    assert!(rows.iter().all(|r| r.len() == 4));
    assert_eq!(rows[1][2], Dart(8 * 6));
    assert_eq!(g.one_dart_per_cell(2).len(), 12);
    assert_eq!(g.one_dart_per_cell(0).len(), 4 * 5);
    assert_eq!(g.one_dart_per_cell(1).len(), 3 * 5 + 4 * 4);
    assert_eq!(g.dimension(), 2);
}

#[test]
fn square_grid_neighbours() {
    let (g, rows) = square::new(2, 2);
    // east of a square lies the next of its row, south the one below
    let s = rows[0][0];
    assert_eq!(g.al(s, &[0, 1, 2]), g.al(rows[0][1], &[1]));
    assert_eq!(g.al(s, &[1, 0, 1, 2]), rows[1][0]);
    // the outer sides are free
    assert!(g.is_free(s, 2));
    assert!(g.is_free(g.al(s, &[1]), 2));
    assert!(g.is_free(g.al(rows[1][1], &[0, 1]), 2));
    // the vertex in the middle lies on all four squares
    let middle = g.al(rows[1][1], &[]);
    let faces: Vec<Dart> = g.one_dart_per_incident_cell(middle, 2, 0);
    assert_eq!(faces.len(), 4);
    assert_eq!(g.orbit(middle, Alphas::vertex()).len(), 8);
}

#[test]
fn vertex_grid_of_squares() {
    let (g, rows) = square::new(2, 3);
    let v = square::vertex_grid(&g, &rows);
    assert_eq!(v.len(), 3);
    assert!(v.iter().all(|r| r.len() == 4));
    assert_eq!(v[0][0], rows[0][0]);
    assert_eq!(v[0][3], g.al(rows[0][2], &[0]));
    assert_eq!(v[2][0], g.al(rows[1][0], &[1, 0, 1]));
    assert_eq!(v[2][3], g.al(rows[1][2], &[1, 0, 1, 0]));
    // one dart at every vertex, each vertex once
    let mut reps: Vec<Dart> = v
        .iter()
        .flatten()
        .map(|&d| g.orbit(d, Alphas::vertex()).into_iter().min().unwrap())
        .collect();
    reps.sort();
    reps.dedup();
    assert_eq!(reps.len(), 12);
    assert_eq!(reps, g.one_dart_per_cell(0));
    let none: Vec<Vec<Dart>> = vec![];
    assert!(square::vertex_grid(&g, &none).is_empty());
}

#[test]
fn hex_grid_counts() {
    let (g, rows) = gmap_folding::grids::hex::new(3, 4);
    assert!(g.check_valid().is_ok());
    assert_eq!(g.ndarts(), 12 * 12);
    assert_eq!(rows.len(), 3);
    assert!(rows.iter().all(|r| r.len() == 4));
    assert_eq!(rows[2][1], Dart(12 * 9));
    assert_eq!(g.one_dart_per_cell(2).len(), 12);
    // every hexagon of a row shares an edge with the next, and with two of
    // the row below but for the first, which has one there
    let shared = 3 * 3 + 2 * 4 + 2 * 3;
    assert_eq!(g.one_dart_per_cell(1).len(), 12 * 6 - shared);
    // Euler: vertices - edges + faces = 1 for a disc
    assert_eq!(
        g.one_dart_per_cell(0).len() + 12,
        g.one_dart_per_cell(1).len() + 1
    );
    let (g, rows) = gmap_folding::grids::hex::new(0, 5);
    assert_eq!(g.ndarts(), 0);
    assert!(rows.is_empty());
    let (g, rows) = gmap_folding::grids::hex::new(2, 0);
    assert_eq!(g.ndarts(), 0);
    assert_eq!(rows.len(), 2);
}

#[test]
fn hex_grid_neighbours() {
    let (g, rows) = gmap_folding::grids::hex::new(2, 2);
    let h = rows[0][0];
    // next of the row
    assert_eq!(g.al(h, &[0, 1, 2]), g.al(rows[0][1], &[1, 0, 1]));
    // same place of the next row
    assert_eq!(g.al(h, &[0, 1, 0, 1, 2]), g.al(rows[1][0], &[1]));
    // the place before, from the second of the row
    assert_eq!(g.al(rows[0][1], &[1, 0, 1, 0, 1, 2]), rows[1][0]);
    // three hexagons meet at an inner vertex
    let inner = g.al(rows[0][1], &[1, 0, 1, 0, 1]);
    assert_eq!(g.orbit(inner, Alphas::vertex()).len(), 6);
    assert_eq!(g.one_dart_per_incident_cell(inner, 2, 0).len(), 3);
}

#[test]
fn hex_vertex_coords_agree() {
    let (g, rows) = gmap_folding::grids::hex::new(3, 3);
    let coords = gmap_folding::grids::hex::vertex_coords(&g, &rows);
    assert_eq!(coords.indices(), Alphas::vertex());
    assert_eq!(coords.map().len(), g.ndarts());
    for (r, row) in rows.iter().enumerate() {
        for (q, &h) in row.iter().enumerate() {
            let a = r as isize + 2 * q as isize;
            let b = r as isize - q as isize;
            // every hexagon finds its corners where it would put them
            let expected = [
                (a, b - 1),
                (a + 1, b - 1),
                (a + 1, b),
                (a, b + 1),
                (a - 1, b + 1),
                (a - 1, b),
            ];
            let mut d = h;
            for (k, e) in expected.iter().enumerate() {
                assert_eq!(coords.map()[&d.0], *e, "corner {} of hexagon {} {}", k, r, q);
                d = if k == 0 { g.al(d, &[0]) } else { g.al(d, &[1, 0]) };
            }
        }
    }
    // distinct vertices have distinct coordinates
    let mut seen: Vec<(isize, isize)> = g
        .one_dart_per_cell(0)
        .iter()
        .map(|d| coords.map()[&d.0])
        .collect();
    seen.sort();
    seen.dedup();
    assert_eq!(seen.len(), g.one_dart_per_cell(0).len());
}
