use flid_engine::generate::{connect, gen_links, gen_nodes, try_place};
use flid_engine::geometry::Point;
use flid_engine::graph::{Link, Node};
use flid_engine::lattice::fill_from_lattice;
use flid_engine::nearest::get_nearest_nodes;

#[test]
fn a_hundred_nodes_are_generated_apart() {
    let nodes = gen_nodes(100);
    assert_eq!(nodes.len(), 100);
    for (i, a) in nodes.iter().enumerate() {
        assert_eq!(a.id, i);
        assert!(-1000 <= a.pos.x && a.pos.x < 1000);
        assert!(-1000 <= a.pos.y && a.pos.y < 1000);
        assert!(500 <= a.size && a.size < 1500);
        for b in &nodes[i + 1..] {
            assert!(a.pos.dist2(b.pos) >= 100 * 100);
        }
    }
}

#[test]
fn no_nodes_are_generated_when_none_are_asked_for() {
    assert!(gen_nodes(0).is_empty());
}

#[test]
fn nodes_are_scattered() {
    // a generator that handed its bounds back would put the first node in a
    // corner, the others on lattice points, and give all the same size
    let nodes = gen_nodes(20);
    assert_eq!(nodes.len(), 20);
    assert!(nodes.iter().any(|n| n.pos.x % 100 != 0));
    assert!(nodes.iter().any(|n| n.pos.y % 100 != 0));
    assert!(nodes.iter().any(|n| n.size != nodes[0].size));
}

#[test]
fn the_lattice_fills_what_is_missing() {
    let mut nodes = vec![Node { id: 0, pos: Point { x: -950, y: -950 }, size: 700 }];
    fill_from_lattice(&mut nodes, 5);
    assert_eq!(nodes.len(), 5);
    // the node that was there stays
    assert_eq!(nodes[0], Node { id: 0, pos: Point { x: -950, y: -950 }, size: 700 });
    assert!(nodes[1..].iter().all(|n| 500 <= n.size && n.size < 1500));
    // the corner and its three neighbours are crowded by the first node
    assert_eq!(nodes[1].pos, Point { x: -1000, y: -800 });
    assert_eq!(nodes[2].pos, Point { x: -1000, y: -700 });
    assert_eq!(nodes[4].id, 4);
    for (i, a) in nodes.iter().enumerate() {
        for b in &nodes[i + 1..] {
            assert!(a.pos.dist2(b.pos) >= 100 * 100);
        }
    }
    // nothing is added to a world that is full already
    fill_from_lattice(&mut nodes, 3);
    assert_eq!(nodes.len(), 5);
    // an empty world takes a hundred lattice points and more
    let mut empty = Vec::new();
    fill_from_lattice(&mut empty, 400);
    assert_eq!(empty.len(), 400);
    fill_from_lattice(&mut empty, 401);
    assert_eq!(empty.len(), 400);
}

#[test]
fn a_crowded_position_is_refused() {
    let mut nodes = Vec::new();
    assert!(try_place(&mut nodes, Point { x: 0, y: 0 }, 700));
    assert_eq!(nodes, vec![Node { id: 0, pos: Point { x: 0, y: 0 }, size: 700 }]);
    // 99.0 away: too close
    assert!(!try_place(&mut nodes, Point { x: 99, y: 0 }, 700));
    assert!(!try_place(&mut nodes, Point { x: 60, y: 79 }, 700));
    assert_eq!(nodes.len(), 1);
    // exactly 100 away: far enough
    assert!(try_place(&mut nodes, Point { x: 60, y: 80 }, 900));
    assert_eq!(nodes[1], Node { id: 1, pos: Point { x: 60, y: 80 }, size: 900 });
}

#[test]
fn a_pair_is_linked_once() {
    let mut links = Vec::new();
    assert!(connect(&mut links, 3, 9, 250));
    assert_eq!(links, vec![Link { id: 0, quality: 250, n1: 3, n2: 9 }]);
    assert!(!connect(&mut links, 3, 9, 300));
    assert!(!connect(&mut links, 9, 3, 300));
    assert!(!connect(&mut links, 4, 4, 300));
    assert!(connect(&mut links, 9, 4, 300));
    assert_eq!(links[1], Link { id: 1, quality: 300, n1: 9, n2: 4 });
    assert_eq!(links.len(), 2);
}

#[test]
fn generated_links_join_existing_nodes_once() {
    let nodes = gen_nodes(100);
    let links = gen_links(&nodes);
    assert!(links.len() >= nodes.len());
    assert!(links.len() <= 4 * nodes.len());
    for (i, l) in links.iter().enumerate() {
        assert_eq!(l.id, i);
        assert!(l.n1 < nodes.len());
        assert!(l.n2 < nodes.len());
        assert!(l.n1 != l.n2);
        assert!(10 <= l.quality && l.quality < 990);
        for m in &links[i + 1..] {
            assert!(!m.between_ids(&l.n1, &l.n2));
        }
    }
}

#[test]
fn every_node_is_linked_to_its_two_nearest() {
    let nodes = gen_nodes(50);
    let links = gen_links(&nodes);
    for node in &nodes {
        let near = get_nearest_nodes(&node.pos, &nodes, 3, 0);
        assert_eq!(near[0].id, node.id);
        for other in &near[1..] {
            assert!(links.iter().any(|l| l.between_ids(&node.id, &other.id)));
        }
    }
}

#[test]
fn two_far_clusters_stay_apart() {
    // six nodes in each of two corners: the four nearest of every node are
    // in its own corner, so no link joins the corners, whatever is drawn
    let mut nodes = Vec::new();
    for (cx, cy) in [(-900, -900), (700, 700)] {
        for (dx, dy) in [(0, 0), (100, 0), (0, 100), (100, 100), (200, 0), (0, 200)] {
            let id = nodes.len();
            nodes.push(Node { id, pos: Point { x: cx + dx, y: cy + dy }, size: 1000 });
        }
    }
    for _ in 0..20 {
        let links = gen_links(&nodes);
        assert!(links.iter().all(|l| (l.n1 < 6) == (l.n2 < 6)));
        for node in &nodes {
            assert!(links.iter().filter(|l| l.has_id(&node.id)).count() >= 2);
        }
    }
}

#[test]
fn three_nodes_are_linked_in_order() {
    let nodes = vec![
        Node { id: 0, pos: Point { x: 0, y: 0 }, size: 700 },
        Node { id: 1, pos: Point { x: 200, y: 0 }, size: 700 },
        Node { id: 2, pos: Point { x: 0, y: 300 }, size: 700 },
    ];
    for _ in 0..20 {
        let links = gen_links(&nodes);
        let ends: Vec<(usize, usize, usize)> = links.iter().map(|l| (l.id, l.n1, l.n2)).collect();
        assert_eq!(ends, vec![(0, 0, 1), (1, 0, 2), (2, 1, 2)]);
        assert!(links.iter().all(|l| 10 <= l.quality && l.quality < 990));
    }
}

#[test]
fn links_lead_from_the_earlier_node_to_its_nearest_first() {
    // four nodes in a row and a fifth far off: node 0 is linked to 1 and 2
    // at least, nearest first; whatever more is drawn comes after
    let nodes = vec![
        Node { id: 0, pos: Point { x: 0, y: 0 }, size: 700 },
        Node { id: 1, pos: Point { x: 100, y: 0 }, size: 700 },
        Node { id: 2, pos: Point { x: 250, y: 0 }, size: 700 },
        Node { id: 3, pos: Point { x: 450, y: 0 }, size: 700 },
        Node { id: 4, pos: Point { x: 900, y: 0 }, size: 700 },
    ];
    for _ in 0..20 {
        let links = gen_links(&nodes);
        assert_eq!((links[0].n1, links[0].n2), (0, 1));
        assert_eq!((links[1].n1, links[1].n2), (0, 2));
        let from: Vec<usize> = links.iter().map(|l| l.n1).collect();
        let mut sorted = from.clone();
        sorted.sort();
        assert_eq!(from, sorted);
    }
}
