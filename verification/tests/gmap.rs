use gmap_folding::dart::{Alphas, Dart, GMapError};
use gmap_folding::gmap::GMap;
use itertools::Itertools;

fn darts(x: impl IntoIterator<Item = usize>) -> Vec<Dart> {
    x.into_iter().map(Dart).collect()
}

fn diagonal_cp_example() -> GMap {
    GMap::from_alpha(
        2,
        darts([
            1, 5, 7, 0, 2, 6, 3, 1, 2, 2, 4, 3, 5, 3, 4, 4, 0, 5, 7, 11, 1, 6, 8, 0, 9, 7, 8, 8,
            10, 9, 11, 9, 10, 10, 6, 11,
        ]),
    )
    .unwrap()
}

#[test]
fn test_load_diagonal_cp() {
    let g = diagonal_cp_example();
    assert_eq!(g.ndarts(), 12);
    assert_eq!(g.al1(Dart(0), 2), Dart(7));
    assert_eq!(g.al(Dart(0), &[0, 2, 1, 0]), Dart(10));
    assert!(g.is_free(Dart(4), 2));
    assert!(!g.is_free(Dart(4), 0));
}

fn check_orbits(g: &GMap) {
    let vertex: Vec<Dart> = g.cell(Dart(0), 0).into_iter().sorted().collect();
    let edge: Vec<Dart> = g.cell(Dart(0), 1).into_iter().sorted().collect();
    let face: Vec<Dart> = g.cell(Dart(0), 2).into_iter().sorted().collect();
    let halfedge: Vec<Dart> = g.orbit(Dart(0), Alphas::half_edge()).into_iter().sorted().collect();
    let angle: Vec<Dart> = g.orbit(Dart(0), Alphas::angle()).into_iter().sorted().collect();
    let dart: Vec<Dart> = g.orbit(Dart(0), Alphas(0)).into_iter().sorted().collect();
    let all: Vec<Dart> = g.orbit(Dart(0), Alphas(!0)).into_iter().sorted().collect();

    assert_eq!(vertex, darts([0, 5, 7, 8]));
    assert_eq!(edge, darts([0, 1, 6, 7]));
    assert_eq!(face, darts(0..6));
    assert_eq!(halfedge, darts([0, 7]));
    assert_eq!(angle, darts([0, 5]));
    assert_eq!(dart, darts([0]));
    assert_eq!(all, darts(0..12));
}

#[test]
fn test_orbits() {
    let mut g = diagonal_cp_example();
    check_orbits(&g);
    g.increase_dimension(4).unwrap();
    check_orbits(&g);
}

#[test]
fn masks_select_indices() {
    assert_eq!(Alphas::cell(0), Alphas::vertex());
    assert_eq!(Alphas::cell(1), Alphas::edge());
    assert_eq!(Alphas::cell(2), Alphas::face());
    assert!(!Alphas::vertex().has(0));
    assert!(Alphas::vertex().has(1));
    assert!(Alphas::side().has(0));
    assert!(!Alphas::side().has(1));
    assert!(!Alphas::side().has(2));
    assert!(Alphas::side().has(3));
    assert!(!Alphas::dart().has(5));
    assert!(Alphas::all().has(31));
    let a = Alphas::apart(2);
    assert!(a.has(0));
    assert!(!a.has(1));
    assert!(!a.has(2));
    assert!(!a.has(3));
    assert!(a.has(4));
    assert_eq!(Alphas::apart(0), Alphas(!3));
}

#[test]
fn empty_rejects_large_dimension() {
    assert!(GMap::empty(31).is_ok());
    assert!(matches!(GMap::empty(32), Err(GMapError::DimensionTooLarge)));
}

#[test]
fn from_alpha_rejects_bad_tables() {
    // not a whole number of rows
    assert!(matches!(
        GMap::from_alpha(2, darts([0, 0, 0, 1])),
        Err(GMapError::InvalidAlpha(_))
    ));
    // entry out of range
    assert!(matches!(
        GMap::from_alpha(1, darts([0, 2, 1, 1])),
        Err(GMapError::InvalidAlpha(_))
    ));
    // alpha_0 not an involution: 0 -> 1, 1 -> 2, 2 -> 0
    assert!(matches!(
        GMap::from_alpha(0, darts([1, 2, 0])),
        Err(GMapError::InvalidAlpha(_))
    ));
    // alpha_0 and alpha_2 do not commute
    // darts 0..4; alpha_0: 0-1, 2-3; alpha_1 free; alpha_2: 0-2 only
    assert!(matches!(
        GMap::from_alpha(2, darts([1, 0, 2, 0, 1, 1, 3, 2, 0, 2, 3, 3])),
        Err(GMapError::InvalidAlpha(_))
    ));
    assert!(matches!(
        GMap::from_alpha(40, darts([])),
        Err(GMapError::DimensionTooLarge)
    ));
    // dimension 0 and 1 are fine
    assert!(GMap::from_alpha(0, darts([1, 0])).is_ok());
    assert!(GMap::from_alpha(1, darts([1, 0, 0, 1])).is_ok());
}

#[test]
fn involutions_hold_on_example() {
    let g = diagonal_cp_example();
    for d in 0..g.ndarts() {
        for i in 0..=g.dimension() {
            let e = g.al1(Dart(d), i);
            assert_eq!(g.al1(e, i), Dart(d));
        }
        assert_eq!(g.al(Dart(d), &[0, 2, 0, 2]), Dart(d));
    }
}

#[test]
fn add_dart_is_free() {
    let mut g = GMap::empty(3).unwrap();
    let d = g.add_dart();
    assert_eq!(d, Dart(0));
    for i in 0..=3 {
        assert!(g.is_free(d, i));
    }
    assert_eq!(g.alpha().len(), 4);
    let e = g.add_edge();
    assert_eq!(e, Dart(1));
    assert_eq!(g.al1(e, 0), Dart(2));
    assert_eq!(g.al1(Dart(2), 0), Dart(1));
    assert!(g.is_free(e, 1));
    assert_eq!(g.ndarts(), 3);
}

#[test]
fn add_polygon_shape() {
    let mut g = GMap::empty(2).unwrap();
    let f = g.add_polygon(4);
    assert_eq!(f, Dart(0));
    assert_eq!(g.ndarts(), 8);
    // pairs joined by alpha_1
    assert_eq!(g.al1(Dart(0), 1), Dart(1));
    assert_eq!(g.al1(Dart(6), 1), Dart(7));
    // consecutive pairs joined by alpha_0, and the last to the first
    assert_eq!(g.al1(Dart(1), 0), Dart(2));
    assert_eq!(g.al1(Dart(5), 0), Dart(6));
    assert_eq!(g.al1(Dart(7), 0), Dart(0));
    assert_eq!(g.al1(Dart(0), 0), Dart(7));
    assert!(g.is_free(Dart(3), 2));
    assert!(g.check_valid().is_ok());
    // walking the face comes back after four steps
    assert_eq!(g.cycle(f, &[1, 0]), darts([0, 2, 4, 6]));
    assert_eq!(g.cycle(f, &[0, 1]), darts([0, 6, 4, 2]));
    let one = g.add_polygon(1);
    assert_eq!(one, Dart(8));
    assert_eq!(g.al1(Dart(8), 0), Dart(9));
    assert_eq!(g.al1(Dart(8), 1), Dart(9));
    assert!(g.check_valid().is_ok());
}

#[test]
fn add_cycle_of_other_involutions() {
    let mut g = GMap::empty(2).unwrap();
    let c = g.add_cycle(1, 2, 3);
    assert_eq!(c, Dart(0));
    assert_eq!(g.ndarts(), 6);
    assert_eq!(g.al1(Dart(0), 1), Dart(1));
    assert_eq!(g.al1(Dart(1), 2), Dart(2));
    assert_eq!(g.al1(Dart(5), 2), Dart(0));
    for d in 0..6 {
        assert!(g.is_free(Dart(d), 0));
    }
    // around the cycle counter-clockwise: alpha_2 then alpha_1
    assert_eq!(g.cycle(c, &[2, 1]), darts([0, 4, 2]));
    assert!(g.check_valid().is_ok());
}

#[test]
fn orbit_paths_are_breadth_first() {
    let g = diagonal_cp_example();
    let l = g.orbit_paths(Dart(0), Alphas::vertex());
    let got: Vec<(Vec<usize>, usize)> = l.into_iter().map(|(p, d)| (p, d.0)).collect();
    assert_eq!(
        got,
        vec![(vec![], 0), (vec![1], 5), (vec![2], 7), (vec![2, 1], 8)]
    );
    let l = g.orbit_paths(Dart(0), Alphas::face());
    let got: Vec<(Vec<usize>, usize)> = l.into_iter().map(|(p, d)| (p, d.0)).collect();
    assert_eq!(
        got,
        vec![
            (vec![], 0),
            (vec![0], 1),
            (vec![1], 5),
            (vec![0, 1], 2),
            (vec![1, 0], 4),
            (vec![0, 1, 0], 3)
        ]
    );
}

#[test]
fn one_dart_per_orbit_gives_minima() {
    let g = diagonal_cp_example();
    assert_eq!(g.one_dart_per_cell(2), darts([0, 6]));
    assert_eq!(g.one_dart_per_cell(0), darts([0, 1, 3, 9]));
    assert_eq!(g.one_dart_per_cell(1).len(), 5);
    assert_eq!(g.one_dart_per_orbit(Alphas::all()), darts([0]));
    assert_eq!(g.one_dart_per_orbit(Alphas::dart()), darts(0..12));
    for a in [Alphas::vertex(), Alphas::edge(), Alphas::face(), Alphas::angle()] {
        for d in g.one_dart_per_orbit(a) {
            let least = g.orbit(d, a).into_iter().min().unwrap();
            assert_eq!(least, d);
        }
    }
    // vertices of the face of dart 0
    assert_eq!(g.one_dart_per_incident_cell(Dart(0), 0, 2), darts([0, 1, 4]));
    assert_eq!(
        g.one_dart_per_incident_orbit(Dart(0), Alphas::edge(), Alphas::face()),
        darts([0, 5, 2])
    );
    assert_eq!(
        g.unique_by_orbit(&darts([7, 0, 5, 6, 1, 2]), Alphas::edge()),
        darts([7, 5, 2])
    );
}

#[test]
fn sew_two_squares() {
    let mut g = GMap::empty(2).unwrap();
    let a = g.add_polygon(4);
    let b = g.add_polygon(4);
    let pairs = g.sew(2, a, b).unwrap();
    assert_eq!(pairs, vec![(Dart(0), Dart(8)), (Dart(7), Dart(15))]);
    assert_eq!(g.al1(Dart(0), 2), Dart(8));
    assert_eq!(g.al1(Dart(15), 2), Dart(7));
    assert!(g.check_valid().is_ok());
    // the same darts cannot be sewn again
    assert!(matches!(g.sew(2, a, b), Err(GMapError::Unsewable)));
    // a dart cannot be sewn to itself or to its own edge
    assert!(matches!(g.sew(2, Dart(2), Dart(2)), Err(GMapError::Unsewable)));
    assert!(matches!(g.sew(2, Dart(1), Dart(2)), Err(GMapError::Unsewable)));
    assert!(g.is_free(Dart(1), 2));
    assert!(g.is_free(Dart(2), 2));
}

#[test]
fn sew_then_unsew_restores_alpha() {
    let mut g = diagonal_cp_example();
    let f = g.add_polygon(3);
    let before: Vec<Dart> = g.alpha().to_vec();
    // dart 2 lies on the boundary of the example
    assert!(g.is_free(Dart(2), 2));
    let pairs = g.sew(2, Dart(2), f).unwrap();
    assert_eq!(pairs.len(), 2);
    assert_ne!(g.alpha().to_vec(), before);
    let back = g.unsew(Dart(2), 2).unwrap();
    assert_eq!(back, pairs);
    assert_eq!(g.alpha().to_vec(), before);
}

#[test]
fn unsew_errors() {
    let mut g = diagonal_cp_example();
    assert!(matches!(g.unsew(Dart(4), 2), Err(GMapError::AlreadyFree)));
    let pairs = g.unsew(Dart(0), 2).unwrap();
    assert_eq!(pairs, vec![(Dart(0), Dart(7)), (Dart(1), Dart(6))]);
    assert!(g.is_free(Dart(0), 2));
    assert!(g.is_free(Dart(6), 2));
    assert!(g.check_valid().is_ok());
    // a cell that alpha_i folds onto itself cannot be unsewn
    let mut h = GMap::from_alpha(2, darts([1, 0, 1, 0, 1, 0])).unwrap();
    assert!(matches!(h.unsew(Dart(0), 2), Err(GMapError::Ununsewable)));
    assert_eq!(h.al1(Dart(0), 2), Dart(1));
}

#[test]
fn sew_mismatched_structure() {
    let mut g = GMap::empty(2).unwrap();
    let lone = g.add_dart();
    let e = g.add_edge();
    // one cell has a single dart, the other two
    assert!(matches!(g.sew(2, lone, e), Err(GMapError::Unsewable)));
    assert!(g.sew(1, lone, e).is_ok());
    assert!(matches!(g.sew(1, lone, e), Err(GMapError::Unsewable)));
}

#[test]
fn delete_removes_component() {
    let mut g = diagonal_cp_example();
    let f = g.add_polygon(3);
    assert_eq!(g.live_darts().len(), 18);
    g.delete(Dart(3)).unwrap();
    assert!(matches!(g.delete(Dart(0)), Err(GMapError::Deleted)));
    for d in 0..12 {
        assert!(g.is_deleted(Dart(d)));
    }
    assert_eq!(g.live_darts(), darts(12..18));
    assert_eq!(g.one_dart_per_cell(2), vec![f]);
    assert!(matches!(g.sew(2, Dart(0), f), Err(GMapError::Deleted)));
    assert!(matches!(g.unsew(Dart(0), 2), Err(GMapError::Deleted)));
    assert!(g.check_valid().is_ok());
    // no live dart reaches, or is reached from, a deleted one
    for d in g.live_darts() {
        for e in g.orbit(d, Alphas::all()) {
            assert!(!g.is_deleted(e));
        }
    }
}

#[test]
fn increase_dimension_errors() {
    let mut g = diagonal_cp_example();
    assert!(matches!(
        g.increase_dimension(1),
        Err(GMapError::CannotDecreaseDimension)
    ));
    assert!(matches!(
        g.increase_dimension(32),
        Err(GMapError::DimensionTooLarge)
    ));
    g.increase_dimension(3).unwrap();
    assert_eq!(g.dimension(), 3);
    assert_eq!(g.ndarts(), 12);
    assert!(g.is_free(Dart(0), 3));
    assert_eq!(g.al1(Dart(0), 2), Dart(7));
}
