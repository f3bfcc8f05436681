use gmap_folding::dart::{Alphas, Dart};
use gmap_folding::gmap::GMap;
use gmap_folding::orbit_map::{OrbitMap, OrbitReprs};

fn square_pair() -> GMap {
    let mut g = GMap::empty(2).unwrap();
    let a = g.add_polygon(4);
    let b = g.add_polygon(4);
    g.sew(2, a, b).unwrap();
    g
}

#[test]
fn insert_writes_whole_orbit() {
    let g = square_pair();
    let mut m: OrbitMap<u32> = OrbitMap::new(Alphas::edge());
    assert_eq!(m.indices(), Alphas::edge());
    m.insert(&g, Dart(0), 7);
    for d in g.orbit(Dart(0), Alphas::edge()) {
        assert_eq!(m.map()[&d.0], 7);
    }
    assert_eq!(m.map().len(), 4);
    assert!(!m.map().contains_key(&2));
    let mut s: OrbitMap<String> = OrbitMap::over_cells(2);
    assert_eq!(s.indices(), Alphas::face());
    s.insert(&g, Dart(9), "right".to_string());
    assert_eq!(s.map().len(), 8);
    assert_eq!(s.map()[&15], "right");
    assert_eq!(s.into_map().len(), 8);
}

#[test]
fn remove_clears_whole_orbit() {
    let g = square_pair();
    let mut m: OrbitMap<u32> = OrbitMap::new(Alphas::vertex());
    m.insert(&g, Dart(0), 1);
    m.insert(&g, Dart(2), 2);
    assert_eq!(m.remove(&g, Dart(9)), Some(1));
    assert_eq!(m.remove(&g, Dart(9)), None);
    assert!(!m.map().contains_key(&0));
    assert_eq!(m.map()[&2], 2);
    assert_eq!(m.map()[&3], 2);
}

#[test]
fn representatives_are_minima() {
    let g = square_pair();
    let mut or = OrbitReprs::new();
    assert_eq!(or.get(Alphas::edge(), Dart(9)), None);
    assert!(or.get_all(Alphas::edge()).is_none());
    assert_eq!(or.get_or_search(&g, Alphas::edge(), Dart(15)), Dart(0));
    let table = or.ensure_all(&g, Alphas::edge());
    assert_eq!(table.len(), 16);
    for d in 0..16 {
        let least = g.orbit(Dart(d), Alphas::edge()).into_iter().min().unwrap();
        assert_eq!(table[d], least);
        assert_eq!(or.get(Alphas::edge(), Dart(d)), Some(least));
        assert_eq!(or.get_or_search(&g, Alphas::edge(), Dart(d)), least);
    }
    assert_eq!(or.get_all(Alphas::edge()).unwrap(), &table[..]);
    or.build(&g, Alphas::face());
    assert_eq!(or.get(Alphas::face(), Dart(15)), Some(Dart(8)));
    assert_eq!(
        or.orbit_repr_per_incident_orbit(&g, Dart(1), Alphas::angle(), Alphas::vertex()),
        vec![Dart(0), Dart(8)]
    );
}
