use flid_engine::flow::{Blob, Flow, FlowHost};
use flid_engine::geometry::Point;
use flid_engine::graph::{Dir, Link, Node};
use flid_engine::protocol::{Address, AddressResponse, ReqDir, Response};
use flid_engine::tick::{leftover, portion};
use flid_engine::world::Game;

/// Three nodes and three links.  Link 0 joins the nodes 0 and 1, 500 apart;
/// link 1 joins 0 and 2, 200 apart; link 2 joins 1 and 2.  The flows 0 to 2
/// are those of the links, the flows 3 to 5 the reservoirs of the nodes.
fn triangle() -> Game {
    let nodes = vec![
        Node { id: 0, pos: Point { x: 0, y: 0 }, size: 1000 },
        Node { id: 1, pos: Point { x: 300, y: 400 }, size: 500 },
        Node { id: 2, pos: Point { x: 0, y: 200 }, size: 1500 },
    ];
    let links = vec![
        Link { id: 0, quality: 500, n1: 0, n2: 1 },
        Link { id: 1, quality: 500, n1: 0, n2: 2 },
        Link { id: 2, quality: 500, n1: 1, n2: 2 },
    ];
    Game::assemble(nodes, links, 1000)
}

/// One node without size in the middle, linked to three nodes around it.
/// The flows 0 to 2 are those of the links, flow 3 is the reservoir of the
/// node in the middle.
fn star() -> Game {
    let nodes = vec![
        Node { id: 0, pos: Point { x: 0, y: 0 }, size: 0 },
        Node { id: 1, pos: Point { x: 100, y: 0 }, size: 0 },
        Node { id: 2, pos: Point { x: 0, y: 100 }, size: 0 },
        Node { id: 3, pos: Point { x: -100, y: 0 }, size: 0 },
    ];
    let links = vec![
        Link { id: 0, quality: 500, n1: 0, n2: 1 },
        Link { id: 1, quality: 500, n1: 0, n2: 2 },
        Link { id: 2, quality: 500, n1: 3, n2: 0 },
    ];
    let mut g = Game::assemble(nodes, links, 0);
    g.change_flow(1, 0, ReqDir::To2);
    g.change_flow(1, 1, ReqDir::To2);
    g.change_flow(1, 2, ReqDir::To2);
    g
}

fn blobs(f: &Flow) -> Vec<Blob> {
    match &f.host {
        FlowHost::Link { blobs, .. } => blobs.clone(),
        FlowHost::Node(_) => Vec::new(),
    }
}

fn total(g: &Game) -> u128 {
    g.flows
        .iter()
        .map(|f| match &f.host {
            FlowHost::Node(_) => f.amount as u128,
            FlowHost::Link { blobs, .. } => blobs.iter().map(|b| b.amount as u128).sum(),
        })
        .sum()
}

fn is_nop(out: &[AddressResponse]) -> bool {
    out.len() == 1 && out[0].whom == Address::NoOne && matches!(out[0].response, Response::Nop)
}

#[test]
fn reservoirs_grow_by_size_times_time() {
    let mut g = triangle();
    let out = g.tick(1250);
    assert_eq!(g.flows[3].amount, 250_000);
    assert_eq!(g.flows[4].amount, 125_000);
    assert_eq!(g.flows[5].amount, 375_000);
    for i in 0..3 {
        assert_eq!(g.flows[i].amount, 0);
        assert!(blobs(&g.flows[i]).is_empty());
    }
    // only the reservoirs have changed
    assert_eq!(out.len(), 2);
    assert_eq!(out[0].whom, Address::All);
    match &out[0].response {
        Response::FlowState { flows } => {
            assert_eq!(flows.iter().map(|f| f.id).collect::<Vec<_>>(), vec![3, 4, 5]);
            assert_eq!(flows[0].amount, 250_000);
        }
        _ => panic!("a tick is answered with the flows that changed"),
    }
}

#[test]
fn a_turned_flow_has_a_direction_and_no_blobs() {
    let mut g = triangle();
    g.change_flow(7, 0, ReqDir::To2);
    g.tick(2000);
    assert_eq!(blobs(&g.flows[0]).len(), 1);
    let out = g.change_flow(8, 0, ReqDir::To1);
    match &g.flows[0].host {
        FlowHost::Link { id, heading, blobs } => {
            assert_eq!(*id, 0);
            assert_eq!(heading.unwrap().dir, Dir::To1);
            assert_eq!(heading.unwrap().by, Some(8));
            assert!(blobs.is_empty());
        }
        FlowHost::Node(_) => panic!("flow 0 is on a link"),
    }
    assert_eq!(g.flows[0].amount, 0);
    assert_eq!(out.len(), 1);
    assert_eq!(out[0].whom, Address::All);
    match &out[0].response {
        Response::FlowUpdate { flow } => {
            assert_eq!(flow.id, 0);
            assert_eq!(flow.amount, 0);
            assert!(blobs(flow).is_empty());
        }
        _ => panic!("a turned flow is answered with the flow"),
    }
}

#[test]
fn a_reservoir_cannot_be_turned() {
    let mut g = triangle();
    g.tick(1250);
    assert!(is_nop(&g.change_flow(7, 3, ReqDir::To1)));
    assert!(is_nop(&g.change_flow(7, 5, ReqDir::To2)));
    assert_eq!(g.flows[3].amount, 250_000);
    assert!(matches!(g.flows[3].host, FlowHost::Node(0)));
}

#[test]
fn a_flow_that_is_not_there_cannot_be_turned() {
    let mut g = triangle();
    assert!(is_nop(&g.change_flow(7, 6, ReqDir::To1)));
    assert!(is_nop(&g.change_flow(7, usize::MAX, ReqDir::To1)));
}

#[test]
fn links_draw_their_rate_and_deliver_on_arrival() {
    let mut g = triangle();
    g.tick(1250);
    g.change_flow(7, 0, ReqDir::To2);
    g.change_flow(7, 1, ReqDir::To2);
    let before = total(&g);
    assert_eq!(before, 750_000);

    g.tick(2250);
    assert_eq!(g.flows[3].amount, 250_000);
    assert_eq!(g.flows[4].amount, 625_000);
    assert_eq!(g.flows[5].amount, 1_875_000);
    assert_eq!(blobs(&g.flows[0]), vec![Blob { amount: 500_000, arrive_at: 7250 }]);
    assert_eq!(blobs(&g.flows[1]), vec![Blob { amount: 500_000, arrive_at: 4250 }]);
    assert_eq!(g.flows[0].amount, 500_000);
    assert_eq!(g.flows[1].amount, 500_000);
    assert_eq!(total(&g), before + 3000 * 1000);

    // at 4250 the blob on link 1 has arrived at node 2
    g.tick(4250);
    assert_eq!(g.flows[3].amount, 250_000);
    assert_eq!(g.flows[4].amount, 1_625_000);
    assert_eq!(g.flows[5].amount, 5_375_000);
    assert_eq!(
        blobs(&g.flows[0]),
        vec![
            Blob { amount: 500_000, arrive_at: 7250 },
            Blob { amount: 1_000_000, arrive_at: 9250 }
        ]
    );
    assert_eq!(blobs(&g.flows[1]), vec![Blob { amount: 1_000_000, arrive_at: 6250 }]);
    assert_eq!(g.flows[0].amount, 1_500_000);
    assert_eq!(g.flows[1].amount, 1_000_000);
    assert_eq!(total(&g), 3_750_000 + 3000 * 2000);
}

#[test]
fn a_blob_is_under_way_until_its_arrival_time() {
    let mut g = triangle();
    g.change_flow(7, 1, ReqDir::To1);
    g.tick(2000);
    // drawn from node 2, to arrive at node 0 at 4000
    assert_eq!(blobs(&g.flows[1]), vec![Blob { amount: 500_000, arrive_at: 4000 }]);
    g.rate = 0;
    g.tick(3999);
    assert_eq!(blobs(&g.flows[1])[0], Blob { amount: 500_000, arrive_at: 4000 });
    let before = g.flows[3].amount;
    g.tick(4200);
    assert!(blobs(&g.flows[1]).iter().all(|b| b.amount == 0));
    assert_eq!(g.flows[3].amount, before + 201 * 1000 + 500_000);
}

#[test]
fn travel_time_is_rounded_down() {
    let mut g = triangle();
    g.change_flow(7, 2, ReqDir::To2);
    g.tick(2000);
    // 360.555... apart at 100 per second
    assert_eq!(blobs(&g.flows[2]), vec![Blob { amount: 500_000, arrive_at: 2000 + 3605 }]);
}

#[test]
fn a_short_reservoir_is_shared_out_and_left_empty() {
    let mut g = star();
    g.flows[3].amount = 10;
    g.rate = 1000;
    g.tick(250);
    assert_eq!(g.flows[3].amount, 0);
    // links 0 and 1 lead away from node 0; link 2 leads towards it
    assert_eq!(blobs(&g.flows[0]), vec![Blob { amount: 5, arrive_at: 1250 }]);
    assert_eq!(blobs(&g.flows[1]), vec![Blob { amount: 5, arrive_at: 1250 }]);
    assert_eq!(blobs(&g.flows[2]), vec![Blob { amount: 0, arrive_at: 1250 }]);
    assert_eq!(total(&g), 10);
}

#[test]
fn what_cannot_be_shared_evenly_goes_to_the_first_links() {
    let nodes = vec![
        Node { id: 0, pos: Point { x: 0, y: 0 }, size: 0 },
        Node { id: 1, pos: Point { x: 100, y: 0 }, size: 0 },
        Node { id: 2, pos: Point { x: 0, y: 100 }, size: 0 },
        Node { id: 3, pos: Point { x: -100, y: 0 }, size: 0 },
    ];
    let links = vec![
        Link { id: 0, quality: 500, n1: 0, n2: 1 },
        Link { id: 1, quality: 500, n1: 0, n2: 2 },
        Link { id: 2, quality: 500, n1: 0, n2: 3 },
    ];
    let mut g = Game::assemble(nodes, links, 0);
    for flow in 0..3 {
        g.change_flow(1, flow, ReqDir::To2);
    }
    g.flows[3].amount = 10;
    g.rate = 1000;
    g.tick(250);
    assert_eq!(g.flows[3].amount, 0);
    assert_eq!(blobs(&g.flows[0])[0].amount, 4);
    assert_eq!(blobs(&g.flows[1])[0].amount, 3);
    assert_eq!(blobs(&g.flows[2])[0].amount, 3);
    assert_eq!(g.flows[0].amount, 4);
    assert_eq!(total(&g), 10);
}

#[test]
fn a_reservoir_that_suffices_serves_in_full() {
    let mut g = star();
    g.flows[3].amount = 1000;
    g.rate = 2;
    g.tick(250);
    // two links ask for 500 each
    assert_eq!(g.flows[3].amount, 0);
    assert_eq!(blobs(&g.flows[0])[0].amount, 500);
    assert_eq!(blobs(&g.flows[1])[0].amount, 500);
    g.flows[3].amount = 1001;
    g.tick(500);
    assert_eq!(g.flows[3].amount, 1);
    assert_eq!(blobs(&g.flows[0])[1].amount, 500);
}

#[test]
fn shares_and_leftovers() {
    assert_eq!(leftover(10, 0, 7), 10);
    assert_eq!(leftover(10, 3, 3), 1);
    assert_eq!(leftover(10, 3, 4), 0);
    assert_eq!(leftover(9, 3, 3), 0);
    assert_eq!(leftover(u64::MAX, 1, u128::MAX), 0);
    assert_eq!(portion(10, 3, 3, 0), 3);
    assert_eq!(portion(10, 3, 4, 0), 4);
    assert_eq!(portion(10, 3, 4, 1), 3);
    assert_eq!(portion(10, 3, 4, 2), 3);
    assert_eq!(portion(11, 3, 4, 1), 4);
    assert_eq!(portion(11, 3, 4, 2), 3);
    assert_eq!(portion(u64::MAX, 1, u128::MAX, 0), u64::MAX);
    assert_eq!(portion(10, 3, 4, 7), 3);
}

#[test]
fn a_tick_that_does_not_fit_leaves_the_flows() {
    let mut g = triangle();
    g.flows[3].amount = u64::MAX - 10;
    let out = g.tick(1250);
    // the flows and the time stay; nothing has changed to tell of
    assert_eq!(g.last_tick, 1000);
    assert_eq!(g.flows[3].amount, u64::MAX - 10);
    assert_eq!(g.flows[4].amount, 0);
    assert_eq!(out.len(), 1);
    assert_eq!(out[0].whom, Address::All);
    assert!(matches!(out[0].response, Response::FlidState { .. }));
    assert!(g.advance(1250).is_none());
    // with room for what the node generates the tick goes through
    g.flows[3].amount = u64::MAX - 250_000;
    assert!(!is_nop(&g.tick(1250)));
    assert_eq!(g.last_tick, 1250);
    assert_eq!(g.flows[3].amount, u64::MAX);
}

#[test]
fn flow_is_conserved_over_many_ticks() {
    let mut g = triangle();
    g.change_flow(7, 0, ReqDir::To2);
    g.change_flow(7, 1, ReqDir::To1);
    g.change_flow(7, 2, ReqDir::To2);
    g.rate = 4000;
    let mut now = 1000;
    let mut expected: u128 = 0;
    for step in 0..40u64 {
        let dt = 200 + 37 * step;
        now += dt;
        assert!(!is_nop(&g.tick(now)));
        expected += 3000 * dt as u128;
        assert_eq!(total(&g), expected);
        for i in 0..3 {
            let sum: u64 = blobs(&g.flows[i]).iter().map(|b| b.amount).sum();
            assert_eq!(g.flows[i].amount, sum);
        }
    }
}

#[test]
fn a_flow_without_a_direction_draws_nothing() {
    let mut g = triangle();
    g.tick(2000);
    for i in 0..3 {
        assert!(blobs(&g.flows[i]).is_empty());
    }
    assert_eq!(total(&g), 3000 * 1000);
}

#[test]
fn a_player_who_leaves_lets_go_of_its_flows() {
    let mut g = triangle();
    g.change_flow(7, 0, ReqDir::To2);
    g.change_flow(8, 1, ReqDir::To1);
    g.tick(2000);
    let before = total(&g);
    g.leave(7);
    match &g.flows[0].host {
        FlowHost::Link { heading, blobs, .. } => {
            assert_eq!(heading.unwrap().dir, Dir::To2);
            assert_eq!(heading.unwrap().by, None);
            assert_eq!(blobs.len(), 1);
        }
        FlowHost::Node(_) => panic!("flow 0 is on a link"),
    }
    match &g.flows[1].host {
        FlowHost::Link { heading, .. } => assert_eq!(heading.unwrap().by, Some(8)),
        FlowHost::Node(_) => panic!("flow 1 is on a link"),
    }
    assert_eq!(total(&g), before);
    // the flow goes on in the direction it was given
    g.tick(3000);
    assert_eq!(blobs(&g.flows[0]).len(), 2);
}

#[test]
fn turning_a_flow_loses_what_is_under_way() {
    let mut g = triangle();
    g.change_flow(7, 0, ReqDir::To2);
    g.tick(2000);
    let before = total(&g);
    let on_the_link = g.flows[0].amount as u128;
    assert_eq!(on_the_link, 500_000);
    g.change_flow(7, 0, ReqDir::To1);
    assert_eq!(total(&g), before - on_the_link);
}
