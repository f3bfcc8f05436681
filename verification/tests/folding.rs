use gmap_folding::dart::{Alphas, Dart};
use gmap_folding::folding::{
    edges_in_plane, face_plane_crossing, fold_order, interpret_assignment, is_face_in_plane,
    CreasePattern, Error, FoldAngle, Mesh,
};

type Pattern = CreasePattern<(f64, f64), f64>;

fn strings(v: &[&str]) -> Vec<String> {
    v.iter().map(|s| s.to_string()).collect()
}

/// A square of side 1 with one diagonal, as two triangles.
fn diagonal_cp() -> Mesh<(f64, f64), f64> {
    Mesh {
        faces_vertices: vec![vec![0, 1, 2], vec![0, 2, 3]],
        faces_edges: vec![vec![0, 1, 4], vec![4, 2, 3]],
        vertices_coords: vec![
            Some((0.0, 0.0)),
            Some((1.0, 0.0)),
            Some((1.0, 1.0)),
            Some((0.0, 1.0)),
        ],
        edges_assignment: strings(&["B", "B", "B", "B", "V"]),
        edges_fold_angle: vec![],
    }
}

/// A square of side 4 cut into four triangles round its centre.
fn triangle_cp() -> Mesh<(f64, f64), f64> {
    Mesh {
        faces_vertices: vec![vec![0, 2, 1], vec![2, 3, 1], vec![3, 4, 1], vec![4, 0, 1]],
        faces_edges: vec![vec![0, 5, 4], vec![1, 6, 5], vec![2, 7, 6], vec![3, 4, 7]],
        vertices_coords: vec![
            Some((0.0, 0.0)),
            Some((2.0, 2.0)),
            Some((4.0, 0.0)),
            Some((4.0, 4.0)),
            Some((0.0, 4.0)),
        ],
        edges_assignment: strings(&["B", "B", "B", "B", "M", "V", "M", "V"]),
        edges_fold_angle: vec![],
    }
}

#[test]
fn parse_diagonal_cp() {
    let f = diagonal_cp();
    let (cp, ft): (Pattern, _) = CreasePattern::from(&f).unwrap();
    let nverts = cp.g().one_dart_per_cell(0).len();
    let nedges = cp.g().one_dart_per_cell(1).len();
    let nfaces = cp.g().one_dart_per_cell(2).len();
    assert_eq!(nverts, 4);
    assert_eq!(nedges, 5);
    assert_eq!(nfaces, 2);
    assert_eq!(cp.vertices_coords().indices(), Alphas::vertex());
    assert_eq!(cp.fold_angle().indices(), Alphas::edge());

    for i in 0..4 {
        let v = ft.vertex_to_dart[&i];
        assert_eq!(cp.orientation()[&v.0], true);
        assert_eq!(cp.orientation()[&cp.g().al(v, &[0]).0], false);

        let expected = match i {
            0 => (0.0, 0.0),
            1 => (1.0, 0.0),
            2 => (1.0, 1.0),
            3 => (0.0, 1.0),
            _ => panic!(),
        };
        assert_eq!(cp.vertices_coords().map()[&v.0], expected);
    }

    let e = ft.edge_to_dart[&4];
    assert!(matches!(
        cp.fold_angle().map()[&e.0],
        FoldAngle::Assigned(180)
    ));
    assert!(cp.g().check_valid().is_ok());
    // the diagonal lies between the two faces, the sides on the border
    assert!(!cp.g().is_free(e, 2));
    for i in 0..4 {
        assert!(cp.g().is_free(ft.edge_to_dart[&i], 2));
        assert!(!cp.fold_angle().map().contains_key(&ft.edge_to_dart[&i].0));
    }
}

#[test]
fn parse_triangle_cp() {
    let f = triangle_cp();
    let (cp, _ft): (Pattern, _) = CreasePattern::from(&f).unwrap();
    let nverts = cp.g().one_dart_per_cell(0).len();
    let nedges = cp.g().one_dart_per_cell(1).len();
    let nfaces = cp.g().one_dart_per_cell(2).len();
    assert_eq!(nverts, 5);
    assert_eq!(nedges, 8);
    assert_eq!(nfaces, 4);
}

#[test]
fn given_angles_come_before_assignments() {
    let mut f = diagonal_cp();
    f.edges_fold_angle = vec![Some(0.0), Some(0.0), Some(0.0), Some(0.0), Some(-30.0)];
    let (mut cp, ft): (Pattern, _) = CreasePattern::from(&f).unwrap();
    let e = ft.edge_to_dart[&4];
    assert!(matches!(cp.fold_angle().map()[&e.0], FoldAngle::Given(a) if a == -30.0));
    // every dart of the crease holds the angle
    for d in cp.g().orbit(e, Alphas::edge()) {
        assert!(matches!(cp.fold_angle().map()[&d.0], FoldAngle::Given(a) if a == -30.0));
    }
    cp.set_fold_angle(e, 90.0);
    assert!(matches!(cp.fold_angle().map()[&e.0], FoldAngle::Given(a) if a == 90.0));
}

#[test]
fn assignments_are_read() {
    assert!(matches!(interpret_assignment(&"B".to_string()), Ok(None)));
    assert!(matches!(interpret_assignment(&"M".to_string()), Ok(Some(-180))));
    assert!(matches!(interpret_assignment(&"V".to_string()), Ok(Some(180))));
    assert!(matches!(interpret_assignment(&"F".to_string()), Ok(Some(0))));
    assert!(matches!(
        interpret_assignment(&"U".to_string()),
        Err(Error::FoldBadAngle)
    ));
    assert!(matches!(
        interpret_assignment(&"".to_string()),
        Err(Error::FoldBadAngle)
    ));
    assert!(matches!(
        interpret_assignment(&"MV".to_string()),
        Err(Error::FoldBadAngle)
    ));
}

fn refused(f: &Mesh<(f64, f64), f64>) -> Error {
    match Pattern::from(f) {
        Ok(_) => panic!("a faulty record was read"),
        Err(e) => e,
    }
}

#[test]
fn faulty_records_are_refused() {
    let mut f = diagonal_cp();
    f.faces_vertices = vec![];
    assert!(matches!(refused(&f), Error::FoldMissingField(n) if n == "faces_vertices"));
    let mut f = diagonal_cp();
    f.faces_edges = vec![];
    assert!(matches!(refused(&f), Error::FoldMissingField(n) if n == "faces_edges"));
    let mut f = diagonal_cp();
    f.vertices_coords = vec![];
    assert!(matches!(refused(&f), Error::FoldMissingField(n) if n == "vertices_coords"));
    let mut f = diagonal_cp();
    f.edges_assignment = vec![];
    assert!(matches!(
        refused(&f),
        Error::FoldMissingField(n) if n == "edges_assignment or edges_foldAngle"
    ));

    let mut f = diagonal_cp();
    f.faces_edges[1] = vec![4, 2];
    assert!(matches!(refused(&f), Error::FoldBadFace(1)));

    // a third face on the diagonal
    let mut f = diagonal_cp();
    f.faces_vertices.push(vec![0, 2, 4]);
    f.faces_edges.push(vec![4, 5, 6]);
    assert!(matches!(refused(&f), Error::FoldNonManifold));

    let mut f = diagonal_cp();
    f.vertices_coords.push(Some((2.0, 2.0)));
    assert!(matches!(
        refused(&f),
        Error::FoldInvalidReference(n, 4) if n == "vertex"
    ));

    let mut f = diagonal_cp();
    f.vertices_coords[2] = None;
    assert!(matches!(refused(&f), Error::FoldBadCoordinates));

    let mut f = diagonal_cp();
    f.edges_assignment[4] = "X".to_string();
    assert!(matches!(refused(&f), Error::FoldBadAngle));

    let mut f = diagonal_cp();
    f.edges_fold_angle = vec![Some(0.0), None];
    assert!(matches!(refused(&f), Error::FoldBadAngle));

    let mut f = diagonal_cp();
    f.edges_assignment.push("M".to_string());
    assert!(matches!(
        refused(&f),
        Error::FoldInvalidReference(n, 5) if n == "edge"
    ));
}

#[test]
fn faces_are_laid_out_breadth_first() {
    let f = triangle_cp();
    let (cp, ft): (Pattern, _) = CreasePattern::from(&f).unwrap();
    let g = cp.g();
    let order = fold_order(g, cp.orientation(), ft.face_to_dart[&0]);
    assert_eq!(order.fixed_face, ft.face_to_dart[&0]);
    assert_eq!(order.vertices.len(), 3);
    // four creases, each crossed once
    assert_eq!(order.crossings.len(), 4);
    let firsts: Vec<bool> = order.crossings.iter().map(|c| c.first).collect();
    assert_eq!(firsts.iter().filter(|&&b| b).count(), 3);
    // the last face is come to twice: the second time not as the first
    assert_eq!(firsts.last(), Some(&false));
    let mut faces = vec![g.orbit(order.fixed_face, Alphas::face())];
    let mut placed = order.vertices.len();
    for c in &order.crossings {
        assert!(!g.is_free(c.edge, 2));
        assert_eq!(c.other, g.al(c.edge, &[2, 0]));
        assert!(faces.iter().any(|f| f.contains(&c.face)));
        assert_eq!(c.first, !faces.iter().any(|f| f.contains(&c.other)));
        if c.first {
            faces.push(g.orbit(c.other, Alphas::face()));
        } else {
            assert!(c.vertices.is_empty());
        }
        placed += c.vertices.len();
    }
    assert_eq!(faces.len(), 4);
    assert_eq!(placed, 5);

    // from a dart that points clockwise the fixed face is that of its edge
    let cw = g.al(ft.face_to_dart[&0], &[1]);
    let order = fold_order(g, cp.orientation(), cw);
    assert_eq!(order.fixed_face, g.al(cw, &[0]));
}

#[test]
fn faces_and_planes() {
    assert!(!is_face_in_plane(&vec![]));
    assert!(!is_face_in_plane(&vec![false, false, false]));
    assert!(is_face_in_plane(&vec![false, true, false]));

    let walk = vec![Dart(0), Dart(2), Dart(4), Dart(6)];
    assert_eq!(
        edges_in_plane(&walk, &vec![true, true, false, true]),
        vec![Dart(0), Dart(6)]
    );
    assert_eq!(
        edges_in_plane(&walk, &vec![true, false, true, false]),
        vec![]
    );
    assert_eq!(edges_in_plane(&walk, &vec![true; 4]), walk);

    // below, below, above, above: up after the second, down after the last
    assert_eq!(
        face_plane_crossing(&walk, &vec![true, true, false, false]),
        Some((Dart(2), Dart(6)))
    );
    assert_eq!(face_plane_crossing(&walk, &vec![false; 4]), None);
    assert_eq!(face_plane_crossing(&walk, &vec![true; 4]), None);
    // of several crossings the last of each kind
    assert_eq!(
        face_plane_crossing(&walk, &vec![true, false, true, false]),
        Some((Dart(4), Dart(6)))
    );
}
