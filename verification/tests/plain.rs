use gmap_folding::dart::{Alphas, Dart, GMapError};

use gmap_folding::gmap::GMap;

#[test]
fn plain_form_round_trip() {
    let mut g = GMap::empty(2).unwrap();
    let a = g.add_polygon(3);
    let b = g.add_polygon(3);
    g.sew(2, a, b).unwrap();
    let plain = gmap_folding::plain::GMap::from(&g);
    assert_eq!(plain.dimension, 2);
    assert_eq!(plain.alpha.len(), 12);
    assert_eq!(plain.alpha[&0], vec![Dart(5), Dart(1), Dart(6)]);
    assert_eq!(plain.alpha[&1], vec![Dart(2), Dart(0), Dart(1)]);
    let back = plain.try_into().unwrap();
    assert_eq!(back.alpha(), g.alpha());
    assert_eq!(back.dimension(), 2);
}

#[test]
fn plain_form_leaves_deleted_darts_out() {
    let mut g = GMap::empty(2).unwrap();
    let a = g.add_polygon(3);
    g.add_polygon(4);
    g.delete(a).unwrap();
    let plain = gmap_folding::plain::GMap::from(&g);
    assert_eq!(plain.alpha.len(), 8);
    assert!(!plain.alpha.contains_key(&0));
    assert!(plain.alpha.contains_key(&6));
    // the darts of the plain form are no longer 0 .. n
    assert!(matches!(
        plain.try_into(),
        Err(GMapError::InvalidAlpha(_))
    ));
}

#[test]
fn plain_form_is_checked() {
    let mut plain = gmap_folding::plain::GMap::from(&GMap::empty(1).unwrap());
    plain.alpha.insert(0, vec![Dart(1), Dart(0)]);
    plain.alpha.insert(1, vec![Dart(0)]);
    assert!(matches!(
        plain.try_into(),
        Err(GMapError::InvalidAlpha(_))
    ));
    let mut plain = gmap_folding::plain::GMap::from(&GMap::empty(1).unwrap());
    plain.alpha.insert(0, vec![Dart(1), Dart(0)]);
    plain.alpha.insert(1, vec![Dart(1), Dart(1)]);
    assert!(matches!(
        plain.try_into(),
        Err(GMapError::InvalidAlpha(_))
    ));
    let mut plain = gmap_folding::plain::GMap::from(&GMap::empty(1).unwrap());
    plain.dimension = 40;
    assert!(matches!(
        plain.try_into(),
        Err(GMapError::DimensionTooLarge)
    ));
}

#[test]
fn masks_as_lists() {
    assert_eq!(gmap_folding::plain::Alphas::from(Alphas::dart()).0, Vec::<usize>::new());
    assert_eq!(gmap_folding::plain::Alphas::from(Alphas(0b1011)).0, vec![0, 1, 3]);
    assert_eq!(gmap_folding::plain::Alphas::from(Alphas::vertex()).0, (1..32).collect::<Vec<_>>());
    assert_eq!(gmap_folding::plain::Alphas(vec![3, 0, 1, 3]).into(), Alphas(0b1011));
    assert_eq!(gmap_folding::plain::Alphas(vec![31, 32, 100]).into(), Alphas(1 << 31));
    for a in [Alphas::vertex(), Alphas::edge(), Alphas::angle(), Alphas::all(), Alphas(12345)] {
        assert_eq!(gmap_folding::plain::Alphas::from(a).into(), a);
    }
}
