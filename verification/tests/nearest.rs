use flid_engine::geometry::Point;
use flid_engine::graph::Node;
use flid_engine::nearest::get_nearest_nodes;

fn node(id: usize, x: i32, y: i32) -> Node {
    Node { id, pos: Point { x, y }, size: 1000 }
}

fn ids(nodes: &[Node]) -> Vec<usize> {
    nodes.iter().map(|n| n.id).collect()
}

fn sample() -> Vec<Node> {
    vec![node(0, 50, 0), node(1, 10, 0), node(2, 0, 30), node(3, -20, 0), node(4, 0, -10)]
}

#[test]
fn nearest_come_first() {
    let origin = Point { x: 0, y: 0 };
    let all = get_nearest_nodes(&origin, &sample(), 0, 0);
    // node 1 and node 4 are both 10 away: the earlier one comes first
    assert_eq!(ids(&all), vec![1, 4, 3, 2, 0]);
}

#[test]
fn at_most_n_are_returned() {
    let origin = Point { x: 0, y: 0 };
    assert_eq!(ids(&get_nearest_nodes(&origin, &sample(), 1, 0)), vec![1]);
    assert_eq!(ids(&get_nearest_nodes(&origin, &sample(), 3, 0)), vec![1, 4, 3]);
    assert_eq!(ids(&get_nearest_nodes(&origin, &sample(), 9, 0)), vec![1, 4, 3, 2, 0]);
}

#[test]
fn the_limit_is_exclusive() {
    let origin = Point { x: 0, y: 0 };
    assert_eq!(ids(&get_nearest_nodes(&origin, &sample(), 0, 20)), vec![1, 4]);
    assert_eq!(ids(&get_nearest_nodes(&origin, &sample(), 0, 21)), vec![1, 4, 3]);
    assert_eq!(ids(&get_nearest_nodes(&origin, &sample(), 0, 10)), Vec::<usize>::new());
    assert_eq!(ids(&get_nearest_nodes(&origin, &sample(), 1, 11)), vec![1]);
}

#[test]
fn nothing_is_near_in_an_empty_world() {
    let origin = Point { x: 0, y: 0 };
    assert!(get_nearest_nodes(&origin, &[], 0, 0).is_empty());
    assert!(get_nearest_nodes(&origin, &[], 3, 100).is_empty());
}

#[test]
fn a_node_is_nearest_to_itself() {
    let nodes = sample();
    let near = get_nearest_nodes(&nodes[2].pos, &nodes, 2, 0);
    assert_eq!(near[0].id, 2);
    assert_eq!(near.len(), 2);
}
