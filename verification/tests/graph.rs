use gmap_folding::clauses::{Color, Constraints};
use gmap_folding::dart::{Alphas, Dart};
use gmap_folding::examples;
use gmap_folding::gmap::GMap;
use gmap_folding::graph::{all_measured, oriented, Angle, Error, Length, Problem};
use gmap_folding::orbit_map::OrbitReprs;
use std::collections::HashMap;

/// The clauses of a colour, as (variables, required mountains), sorted.
fn clauses_of(c: &Constraints, color: Color) -> Vec<(usize, usize)> {
    let mut out: Vec<(usize, usize)> = c
        .clause_colors()
        .iter()
        .filter(|(_, &k)| k == color)
        .map(|(&h, _)| (c.cg().cycle(Dart(h), &[2, 1]).len(), c.clause_sizes()[&h]))
        .collect();
    out.sort();
    out
}

/// Every variable lies between one blue clause and one red one, and no
/// clause asks for more mountains than it has variables.
fn check_clauses(c: &Constraints) {
    let cg = c.cg();
    assert!(cg.check_valid().is_ok());
    assert_eq!(cg.dimension(), 2);
    let mut reprs = OrbitReprs::new();
    let faces = reprs.ensure_all(cg, Alphas::vertex());
    for d in 0..cg.ndarts() {
        let e = cg.al1(Dart(d), 0);
        assert_ne!(e, Dart(d));
        assert_ne!(cg.al1(Dart(d), 1), Dart(d));
        assert_ne!(cg.al1(Dart(d), 2), Dart(d));
        let here = c.clause_colors()[&faces[d].0];
        let there = c.clause_colors()[&faces[e.0].0];
        assert_ne!(here, there);
        assert_eq!(faces[cg.al1(Dart(d), 2).0], faces[d]);
    }
    assert_eq!(c.clause_sizes().len(), c.clause_colors().len());
    for (&h, &size) in c.clause_sizes() {
        assert_eq!(faces[h], Dart(h));
        assert!(size <= cg.cycle(Dart(h), &[2, 1]).len());
    }
    for (_, &d) in c.angle_to_cg() {
        assert_eq!(c.clause_colors()[&faces[d.0].0], Color::Blue);
    }
}

#[test]
fn fold_kite() {
    let problem = examples::kite().unwrap();
    let constraints = problem.constraint_graph().unwrap();
    check_clauses(&constraints);
    // one length-1 valley of three corners in each face, and what is left
    assert_eq!(
        clauses_of(&constraints, Color::Red),
        vec![(2, 0), (2, 2), (4, 2), (4, 2)]
    );
    assert_eq!(
        clauses_of(&constraints, Color::Blue),
        vec![(2, 1), (2, 1), (2, 1), (2, 1), (2, 1), (2, 1)]
    );
    assert_eq!(constraints.angle_to_cg().len(), 8);
}

#[test]
fn fold_trapezoid() {
    let problem = examples::trapezoid().unwrap();
    let constraints = problem.constraint_graph().unwrap();
    check_clauses(&constraints);
    assert_eq!(
        clauses_of(&constraints, Color::Red),
        vec![(2, 0), (2, 1), (2, 1), (2, 2)]
    );
    assert_eq!(
        clauses_of(&constraints, Color::Blue),
        vec![(2, 1), (2, 1), (2, 1), (2, 1)]
    );
}

#[test]
fn fold_grid() {
    let problem = examples::square_grid(4).unwrap();
    let constraints = problem.constraint_graph().unwrap();
    check_clauses(&constraints);
    // no valley anywhere: one clause for each of the 16 squares, one for the
    // exterior face
    let mut red: Vec<(usize, usize)> = vec![(4, 1); 16];
    red.push((16, 9));
    assert_eq!(clauses_of(&constraints, Color::Red), red);
    // 4 corners of two angles, 12 border vertices of three, 9 inner ones of four
    let mut blue: Vec<(usize, usize)> = vec![(2, 1); 4];
    blue.extend(vec![(3, 1); 12]);
    blue.extend(vec![(4, 1); 9]);
    assert_eq!(clauses_of(&constraints, Color::Blue), blue);
    assert_eq!(constraints.angle_to_cg().len(), 80);
}

#[test]
fn fold_big_kite() {
    let problem = examples::big_kite(4).unwrap();
    let constraints = problem.constraint_graph().unwrap();
    check_clauses(&constraints);
}

#[test]
fn fold_regular() {
    let problem = examples::regular(4).unwrap();
    let constraints = problem.constraint_graph().unwrap();
    check_clauses(&constraints);
    assert_eq!(
        clauses_of(&constraints, Color::Red),
        vec![(8, 3), (8, 5)]
    );
    assert_eq!(clauses_of(&constraints, Color::Blue), vec![(2, 1); 8]);
    let exterior = problem.exterior_face();
    assert_eq!(exterior, Dart(16));
}

#[test]
fn fold_big_arc() {
    let problem = examples::big_arc(4).unwrap();
    let constraints = problem.constraint_graph().unwrap();
    check_clauses(&constraints);
}

#[test]
fn examples_are_oriented_and_measured() {
    for p in [
        examples::kite().unwrap(),
        examples::trapezoid().unwrap(),
        examples::big_kite(3).unwrap(),
        examples::regular(2).unwrap(),
        examples::big_arc(3).unwrap(),
        examples::square_grid(2).unwrap(),
    ] {
        assert!(oriented(p.g()));
        assert!(all_measured(p.g(), &OrbitReprs::new(), p.edge_lengths()));
        assert!(p.angle_constraints().is_empty());
        assert!(p.g().check_valid().is_ok());
    }
}

#[test]
fn kite_lengths_follow_the_face() {
    let p = examples::kite().unwrap();
    let lens = p.nonflat_lengths(Dart(0)).unwrap();
    // the length that follows a corner is that of the edge that leads to
    // the next corner
    assert_eq!(
        lens,
        vec![(Dart(0), 1), (Dart(2), 2), (Dart(4), 2), (Dart(6), 1)]
    );
    assert!(Problem::check_kawasaki(&lens).is_ok());
}

fn wrapped_square(lengths: [Length; 4]) -> (GMap, HashMap<usize, Length>, Dart) {
    let mut g = GMap::empty(2).unwrap();
    let f = g.add_polygon(4);
    let ext = examples::wrap_exterior(&mut g, f).unwrap();
    let reprs = OrbitReprs::new();
    let mut edge_lengths = HashMap::new();
    let mut d = f;
    for l in lengths {
        edge_lengths.insert(reprs.get_or_search(&g, Alphas::edge(), d).0, l);
        d = g.al(d, &[1, 0]);
    }
    (g, edge_lengths, ext)
}

#[test]
fn kawasaki_violation_is_refused() {
    let (g, edge_lengths, ext) = wrapped_square([1, 1, 2, 3]);
    let p = Problem::with_exterior(g, edge_lengths, HashMap::new(), ext).unwrap();
    assert!(matches!(
        p.constraint_graph(),
        Err(Error::KawasakiViolation)
    ));
    let lens = vec![(Dart(0), 1), (Dart(2), 2), (Dart(4), 2)];
    assert!(matches!(
        Problem::check_kawasaki(&lens),
        Err(Error::KawasakiViolation)
    ));
    let lens = vec![(Dart(0), 3), (Dart(2), 2), (Dart(4), 2), (Dart(6), 3)];
    assert!(Problem::check_kawasaki(&lens).is_ok());
    let lens = vec![(Dart(0), 3), (Dart(2), 2), (Dart(4), 2), (Dart(6), 4)];
    assert!(matches!(
        Problem::check_kawasaki(&lens),
        Err(Error::KawasakiViolation)
    ));
}

#[test]
fn other_dimensions_are_refused() {
    let mut g = GMap::empty(1).unwrap();
    g.add_polygon(3);
    assert!(matches!(
        Problem::with_exterior(g, HashMap::new(), HashMap::new(), Dart(0)),
        Err(Error::Nonplanar)
    ));
}

#[test]
fn angle_constraints_are_propagated() {
    // at every vertex of a wrapped square lie two angles
    let (g, edge_lengths, ext) = wrapped_square([1, 1, 1, 1]);
    let mut angles = HashMap::new();
    angles.insert(0, Angle::Mountain);
    let p = Problem::with_exterior(g, edge_lengths, angles, ext).unwrap();
    // the other angle at the vertex of dart 0 became flat
    assert_eq!(p.angle_constraints().len(), 2);
    assert_eq!(p.angle_constraints()[&0], Angle::Mountain);
    let other: Vec<usize> = p
        .angle_constraints()
        .iter()
        .filter(|(_, &a)| a == Angle::Flat)
        .map(|(&d, _)| d)
        .collect();
    assert_eq!(other.len(), 1);
    assert!(p.g().orbit(Dart(0), Alphas::vertex()).contains(&Dart(other[0])));

    // two mountains at one vertex cannot hold together
    let (g, edge_lengths, ext) = wrapped_square([1, 1, 1, 1]);
    let mut angles = HashMap::new();
    angles.insert(0, Angle::Mountain);
    angles.insert(other[0], Angle::Mountain);
    assert!(matches!(
        Problem::with_exterior(g, edge_lengths, angles, ext),
        Err(Error::BadAngleConstraints)
    ));

    // one flat angle alone cannot hold
    let (g, edge_lengths, ext) = wrapped_square([1, 1, 1, 1]);
    let mut angles = HashMap::new();
    angles.insert(0, Angle::Flat);
    assert!(matches!(
        Problem::with_exterior(g, edge_lengths, angles, ext),
        Err(Error::BadAngleConstraints)
    ));
}

#[test]
fn faces_without_corners_are_refused() {
    // both angles flat at every vertex: no face has a corner left
    let (g, edge_lengths, ext) = wrapped_square([1, 1, 1, 1]);
    let mut angles = HashMap::new();
    for d in g.one_dart_per_orbit(Alphas::angle()) {
        angles.insert(d.0, Angle::Flat);
    }
    let p = Problem::with_exterior(g, edge_lengths, angles, ext).unwrap();
    assert!(matches!(
        p.nonflat_lengths(Dart(0)),
        Err(Error::BadAngleConstraints)
    ));
    assert!(matches!(
        p.constraint_graph(),
        Err(Error::BadAngleConstraints)
    ));
}
