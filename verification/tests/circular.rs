use gmap_folding::circular::{Circular, Node};
use gmap_folding::shrink::{find_enclosed_edge_sequence, shrink, RedClause, Span};

fn ring(lens: &[Span]) -> (Circular<Span>, Vec<Node>) {
    let mut c = Circular::new();
    let mut nodes = vec![];
    for &l in lens {
        let n = c.add_node(l);
        if let Some(&prev) = nodes.last() {
            c.splice(prev, n);
        }
        nodes.push(n);
    }
    (c, nodes)
}

#[test]
fn new_node_is_its_own_ring() {
    let mut c: Circular<u8> = Circular::new();
    assert_eq!(c.len(), 0);
    let a = c.add_node(7);
    assert_eq!(a, Node(0));
    assert_eq!(c.node(a).next, a);
    assert_eq!(c.node(a).prev, a);
    assert_eq!(c.node(a).data, 7);
    assert_eq!(c.iter(a), vec![a]);
    *c.mut_data(a) = 9;
    assert_eq!(c.node(a).data, 9);
    c.set_data(a, 4);
    assert_eq!(c.node(a).data, 4);
    assert_eq!(c.len(), 1);
}

#[test]
fn splice_joins_and_split_cuts() {
    let (mut c, n) = ring(&[10, 11, 12, 13, 14]);
    assert_eq!(c.iter(n[0]), n);
    assert_eq!(c.iter(n[3]), vec![n[3], n[4], n[0], n[1], n[2]]);
    assert_eq!(c.node(n[0]).prev, n[4]);
    // cut out 1 ..= 2
    let before = c.split(n[1], n[2]);
    assert_eq!(before, n[0]);
    assert_eq!(c.iter(n[1]), vec![n[1], n[2]]);
    assert_eq!(c.iter(n[0]), vec![n[0], n[3], n[4]]);
    // and put them back after 4
    let back = c.splice(n[4], n[1]);
    assert_eq!(back, n[2]);
    assert_eq!(c.iter(n[0]), vec![n[0], n[3], n[4], n[1], n[2]]);
    // a splice within one ring parts it
    let cut = c.splice(n[0], n[4]);
    assert_eq!(cut, n[3]);
    assert_eq!(c.iter(n[3]), vec![n[3]]);
    assert_eq!(c.iter(n[0]), vec![n[0], n[4], n[1], n[2]]);
}

#[test]
fn valleys_are_found() {
    // all equal: no valley
    let (c, n) = ring(&[2, 2, 2, 2]);
    assert_eq!(find_enclosed_edge_sequence(&c, n[3]), None);
    // the kite: one valley of length 1 from the first node on
    let (c, n) = ring(&[1, 1, 2, 2]);
    assert_eq!(
        find_enclosed_edge_sequence(&c, n[3]),
        Some((n[0], n[2], 3, 1))
    );
    // the trapezoid: the valley is the single edge of length 1
    let (c, n) = ring(&[1, 2, 3, 2]);
    assert_eq!(
        find_enclosed_edge_sequence(&c, n[3]),
        Some((n[0], n[1], 2, 1))
    );
    // a descent goes on to the lowest run before it counts
    let (c, n) = ring(&[5, 3, 1, 1, 4, 6]);
    assert_eq!(
        find_enclosed_edge_sequence(&c, n[5]),
        Some((n[2], n[4], 3, 1))
    );
    // the first valley from the head on
    let (c, n) = ring(&[3, 1, 3, 1]);
    assert_eq!(
        find_enclosed_edge_sequence(&c, n[0]),
        Some((n[1], n[2], 2, 1))
    );
    assert_eq!(
        find_enclosed_edge_sequence(&c, n[2]),
        Some((n[3], n[0], 2, 1))
    );
}

fn summary(plan: &[RedClause]) -> Vec<(Vec<usize>, usize, usize, Option<usize>)> {
    plan.iter()
        .map(|c| (c.slots.clone(), c.arity, c.mountains, c.spare))
        .collect()
}

#[test]
fn plans_of_the_shrink() {
    // all equal: the last clause alone
    assert_eq!(
        summary(&shrink(&vec![1, 1, 1, 1], false)),
        vec![(vec![3, 0, 1, 2], 4, 1, None)]
    );
    assert_eq!(
        summary(&shrink(&vec![1; 8], true)),
        vec![(vec![7, 0, 1, 2, 3, 4, 5, 6], 8, 5, None)]
    );
    // the kite: a valley of three corners, and a spare corner for the rest
    assert_eq!(
        summary(&shrink(&vec![1, 1, 2, 2], false)),
        vec![
            (vec![0, 1, 2], 4, 2, Some(4)),
            (vec![3, 4], 2, 0, None)
        ]
    );
    assert_eq!(
        summary(&shrink(&vec![1, 1, 2, 2], true)),
        vec![
            (vec![0, 1, 2], 4, 2, Some(4)),
            (vec![3, 4], 2, 2, None)
        ]
    );
    // the trapezoid: a valley of two corners; 2 - 1 + 3 = 4 is left with 2
    assert_eq!(
        summary(&shrink(&vec![1, 2, 3, 2], false)),
        vec![
            (vec![0, 1], 2, 1, None),
            (vec![3, 2], 2, 0, None)
        ]
    );
}

#[test]
fn plans_join_every_corner_once() {
    for lens in [
        vec![1, 2, 3, 4, 4, 3, 2, 1],
        vec![1, 2, 3, 4, 5, 6, 7, 4],
        vec![3, 1, 3, 5, 5, 5],
        vec![2, 7, 9, 4],
    ] {
        let total: Span = lens.iter().enumerate().map(|(i, l)| if i % 2 == 0 { *l } else { -*l }).sum();
        assert_eq!(total, 0);
        for exterior in [false, true] {
            let plan = shrink(&lens, exterior);
            let mut corners = lens.len();
            let mut joined = vec![];
            for (k, c) in plan.iter().enumerate() {
                assert!(c.slots.iter().all(|&s| s < corners));
                joined.extend(c.slots.iter().copied());
                assert!(c.mountains <= c.arity);
                if let Some(s) = c.spare {
                    assert_eq!(s, corners);
                    assert_eq!(c.arity, c.slots.len() + 1);
                    corners += 1;
                } else {
                    assert_eq!(c.arity, c.slots.len());
                }
                if k + 1 < plan.len() {
                    assert_eq!(c.mountains, c.arity / 2);
                } else if exterior {
                    assert_eq!(c.mountains, c.arity / 2 + 1);
                } else {
                    assert_eq!(c.mountains, c.arity / 2 - 1);
                }
            }
            joined.sort();
            assert_eq!(joined, (0..corners).collect::<Vec<_>>());
        }
    }
}
