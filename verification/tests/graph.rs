use flid_engine::geometry::Point;
use flid_engine::graph::{Dir, Link, Node};

fn link(n1: usize, n2: usize) -> Link {
    Link { id: 0, quality: 500, n1, n2 }
}

#[test]
fn a_link_touches_its_two_ends_only() {
    let l = link(3, 9);
    assert!(l.has_id(&3));
    assert!(l.has_id(&9));
    assert!(!l.has_id(&4));
}

#[test]
fn a_link_is_between_its_ends_in_either_order() {
    let l = link(3, 9);
    assert!(l.between_ids(&3, &9));
    assert!(l.between_ids(&9, &3));
    assert!(!l.between_ids(&3, &4));
    assert!(!l.between_ids(&4, &9));
    // a node counts as both ends of a pair that names it twice
    assert!(l.between_ids(&3, &3));
}

#[test]
fn the_direction_from_an_end_leads_to_the_other() {
    let l = link(3, 9);
    assert_eq!(l.dir_from(&3), Some(Dir::To2));
    assert_eq!(l.dir_from(&9), Some(Dir::To1));
    assert_eq!(l.dir_from(&5), None);
}

#[test]
fn start_and_end_follow_the_direction() {
    let l = link(3, 9);
    assert_eq!(l.start(Dir::To2), 3);
    assert_eq!(l.end(Dir::To2), 9);
    assert_eq!(l.start(Dir::To1), 9);
    assert_eq!(l.end(Dir::To1), 3);
}

#[test]
fn nodes_measure_distance_and_travel_time() {
    let a = Node { id: 0, pos: Point { x: 0, y: 0 }, size: 1000 };
    let b = Node { id: 1, pos: Point { x: 300, y: 400 }, size: 1000 };
    assert_eq!(a.dist_to(&b), 500);
    let c = Node { id: 2, pos: Point { x: 1, y: 1 }, size: 1000 };
    assert_eq!(a.dist_to(&c), 1);
    assert_eq!(a.dist_to(&a), 0);
    assert_eq!(a.time_to(&b), 5000);
    assert_eq!(b.time_to(&a), 5000);
}
