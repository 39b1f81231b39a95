use flid_engine::avatar::{Flid, Host, Jump};
use flid_engine::engine::MIN_TICK_INTERVAL;
use flid_engine::flow::FlowHost;
use flid_engine::geometry::Point;
use flid_engine::graph::{Dir, Link, Node};
use flid_engine::protocol::{
    noop, personal, Address, AddressResponse, PersonalRequest, ReqDir, Request, Response,
};
use flid_engine::world::{now, to_millis, Game, DEFAULT_RATE, END_OF_TIME, LAST_READING};

/// Ten nodes in a row, a hundred apart; links 0 to 6 join neighbours, link 7
/// joins the nodes 3 and 9.
fn row() -> Game {
    let mut nodes = Vec::new();
    for i in 0..10 {
        nodes.push(Node { id: i, pos: Point { x: 100 * i as i32, y: 0 }, size: 1000 });
    }
    let mut links = Vec::new();
    for i in 0..7 {
        links.push(Link { id: i, quality: 500, n1: i, n2: i + 1 });
    }
    links.push(Link { id: 7, quality: 500, n1: 3, n2: 9 });
    Game::assemble(nodes, links, 1000)
}

fn is_nop(out: &[AddressResponse]) -> bool {
    out.len() == 1 && out[0].whom == Address::NoOne && matches!(out[0].response, Response::Nop)
}

#[test]
fn a_request_is_tied_to_its_player() {
    let p = personal(7, Request::Jump { link_id: 3 });
    assert_eq!(p, PersonalRequest { player: 7, request: Request::Jump { link_id: 3 } });
}

#[test]
fn the_noop_goes_to_nobody() {
    let r = noop();
    assert_eq!(r.whom, Address::NoOne);
    assert!(matches!(r.response, Response::Nop));
}

#[test]
fn an_assembled_world_is_empty() {
    let g = row();
    assert_eq!(g.nodes.len(), 10);
    assert_eq!(g.links.len(), 8);
    assert!(g.flids.is_empty());
    assert_eq!(g.last_tick, 1000);
    assert_eq!(g.rate, DEFAULT_RATE);
    assert_eq!(g.flows.len(), 18);
    for (i, f) in g.flows.iter().enumerate() {
        assert_eq!(f.id, i);
        assert_eq!(f.amount, 0);
        match &f.host {
            FlowHost::Link { id, heading, blobs } => {
                assert!(i < 8);
                assert_eq!(*id, i);
                assert!(heading.is_none());
                assert!(blobs.is_empty());
            }
            FlowHost::Node(n) => {
                assert!(i >= 8);
                assert_eq!(*n, i - 8);
            }
        }
    }
}

#[test]
fn a_new_player_is_welcomed_and_shown_to_all() {
    let mut g = row();
    let out = g.join(42, 3);
    assert_eq!(g.flids, vec![Flid { id: 42, host: Host::Node(3) }]);
    assert_eq!(out.len(), 2);
    assert_eq!(out[0].whom, Address::Player(42));
    assert!(matches!(out[0].response, Response::Hello { id: 42, time: 1000 }));
    assert_eq!(out[1].whom, Address::All);
    match &out[1].response {
        Response::GameState(snapshot) => {
            assert_eq!(snapshot.flids, g.flids);
            assert_eq!(snapshot.nodes, g.nodes);
            assert_eq!(snapshot.links, g.links);
        }
        _ => panic!("the second response is the world"),
    }
}

#[test]
fn a_player_enters_once() {
    let mut g = row();
    g.join(42, 3);
    assert!(is_nop(&g.join(42, 5)));
    assert_eq!(g.flids, vec![Flid { id: 42, host: Host::Node(3) }]);
}

#[test]
fn nobody_enters_at_a_node_that_is_not_there() {
    let mut g = row();
    assert!(is_nop(&g.join(42, 10)));
    assert!(g.flids.is_empty());
}

#[test]
fn a_player_who_leaves_is_gone() {
    let mut g = row();
    g.join(1, 0);
    g.join(2, 5);
    g.join(3, 9);
    let out = g.leave(2);
    assert_eq!(
        g.flids,
        vec![Flid { id: 1, host: Host::Node(0) }, Flid { id: 3, host: Host::Node(9) }]
    );
    assert_eq!(out.len(), 1);
    assert_eq!(out[0].whom, Address::All);
    match &out[0].response {
        Response::GameState(snapshot) => assert_eq!(snapshot.flids, g.flids),
        _ => panic!("the response is the world"),
    }
    // leaving twice changes nothing more
    g.leave(2);
    assert_eq!(g.flids.len(), 2);
}

#[test]
fn jump_from_node_three_along_link_seven() {
    let mut g = row();
    g.join(42, 3);
    let out = g.start_jump(42, 7, 5000);
    let expected = Flid {
        id: 42,
        host: Host::Link(Jump { id: 7, dir: Dir::To2, start_at: 5000, arrive_at: 11_000 }),
    };
    assert_eq!(g.flids, vec![expected]);
    assert_eq!(out.len(), 1);
    assert_eq!(out[0].whom, Address::All);
    match &out[0].response {
        Response::FlidUpdate { flid } => assert_eq!(*flid, expected),
        _ => panic!("a jump is answered with the avatar"),
    }
}

#[test]
fn jump_towards_the_first_end() {
    let mut g = row();
    g.join(42, 9);
    g.start_jump(42, 7, 0);
    assert_eq!(
        g.flids[0].host,
        Host::Link(Jump { id: 7, dir: Dir::To1, start_at: 0, arrive_at: 6000 })
    );
}

#[test]
fn no_jump_while_in_transit() {
    let mut g = row();
    g.join(42, 3);
    g.start_jump(42, 7, 5000);
    let before = g.flids.clone();
    // link 2 touches node 3 and link 7 does, but the avatar is under way
    assert!(is_nop(&g.start_jump(42, 2, 5001)));
    assert!(is_nop(&g.start_jump(42, 7, 5001)));
    assert_eq!(g.flids, before);
}

#[test]
fn no_jump_along_a_link_that_is_elsewhere_or_nowhere() {
    let mut g = row();
    g.join(42, 3);
    assert!(is_nop(&g.start_jump(42, 0, 5000)));
    assert!(is_nop(&g.start_jump(42, 8, 5000)));
    assert!(is_nop(&g.start_jump(42, 99, 5000)));
    assert_eq!(g.flids, vec![Flid { id: 42, host: Host::Node(3) }]);
}

#[test]
fn no_jump_for_a_player_who_is_not_there() {
    let mut g = row();
    g.join(42, 3);
    assert!(is_nop(&g.start_jump(43, 7, 5000)));
    assert_eq!(g.flids, vec![Flid { id: 42, host: Host::Node(3) }]);
}

#[test]
fn no_jump_at_the_end_of_time() {
    let mut g = row();
    g.join(42, 3);
    assert!(is_nop(&g.start_jump(42, 7, END_OF_TIME + 1)));
    assert!(!is_nop(&g.start_jump(42, 7, END_OF_TIME)));
    assert_eq!(
        g.flids[0].host,
        Host::Link(Jump {
            id: 7,
            dir: Dir::To2,
            start_at: END_OF_TIME,
            arrive_at: END_OF_TIME + 6000
        })
    );
}

#[test]
fn the_jump_of_a_parked_avatar_is_computed() {
    let g = row();
    let link = g.links[7];
    assert_eq!(
        g.jump(&Host::Node(3), &link, 10),
        Some(Jump { id: 7, dir: Dir::To2, start_at: 10, arrive_at: 6010 })
    );
    assert_eq!(g.jump(&Host::Node(4), &link, 10), None);
    let under_way = Host::Link(Jump { id: 7, dir: Dir::To2, start_at: 0, arrive_at: 6000 });
    assert_eq!(g.jump(&under_way, &link, 10), None);
    assert_eq!(g.time(&link), Some(6000));
    assert_eq!(g.time(&Link { id: 8, quality: 1, n1: 0, n2: 10 }), None);
}

#[test]
fn an_avatar_arrives_when_its_time_has_come() {
    let mut g = row();
    g.join(42, 3);
    g.start_jump(42, 7, 5000);
    g.tick(10_999);
    assert!(matches!(g.flids[0].host, Host::Link(_)));
    assert_eq!(g.last_tick, 10_999);
    let out = g.tick(11_200);
    assert_eq!(g.flids, vec![Flid { id: 42, host: Host::Node(9) }]);
    assert_eq!(out.len(), 2);
    assert_eq!(out[1].whom, Address::All);
    match &out[1].response {
        Response::FlidState { flids } => assert_eq!(*flids, g.flids),
        _ => panic!("a tick is answered with the avatars"),
    }
}

#[test]
fn a_second_tick_within_the_interval_is_ignored() {
    let mut g = row();
    let first = g.tick(2000);
    assert_eq!(first.len(), 2);
    assert_eq!(g.last_tick, 2000);
    let snapshot = g.snapshot();
    assert!(is_nop(&g.tick(2000 + MIN_TICK_INTERVAL - 1)));
    assert_eq!(g.last_tick, 2000);
    assert_eq!(g.flids, snapshot.flids);
    for (a, b) in g.flows.iter().zip(snapshot.flows.iter()) {
        assert_eq!(a.amount, b.amount);
    }
    assert!(is_nop(&g.tick(2000)));
    assert!(is_nop(&g.tick(1500)));
    assert_eq!(g.last_tick, 2000);
    // at the interval the tick goes through
    assert!(!is_nop(&g.tick(2000 + MIN_TICK_INTERVAL)));
    assert_eq!(g.last_tick, 2200);
}

#[test]
fn a_tick_after_an_ignored_tick_counts_from_the_last_applied_one() {
    let mut g = row();
    assert!(is_nop(&g.tick(1100)));
    assert_eq!(g.last_tick, 1000);
    // 150 after the ignored tick, but 250 after the last one that was applied
    assert!(!is_nop(&g.tick(1250)));
    assert_eq!(g.last_tick, 1250);
}

#[test]
fn a_snapshot_shows_what_the_last_request_did() {
    let mut g = row();
    g.join(42, 3);
    g.start_jump(42, 7, 1000);
    let out = g.report(5, 1000);
    assert_eq!(out.len(), 1);
    assert_eq!(out[0].whom, Address::Player(5));
    match &out[0].response {
        Response::GameState(snapshot) => {
            assert_eq!(
                snapshot.flids,
                vec![Flid {
                    id: 42,
                    host: Host::Link(Jump { id: 7, dir: Dir::To2, start_at: 1000, arrive_at: 7000 })
                }]
            );
            assert_eq!(snapshot.last_tick, 1000);
        }
        _ => panic!("a snapshot is the world"),
    }
    // asking later moves time on, without regard to the tick interval
    let out = g.report(5, 1001);
    match &out[0].response {
        Response::GameState(snapshot) => assert_eq!(snapshot.last_tick, 1001),
        _ => panic!("a snapshot is the world"),
    }
    assert_eq!(g.last_tick, 1001);
    let out = g.report(5, 7000);
    match &out[0].response {
        Response::GameState(snapshot) => {
            assert_eq!(snapshot.flids, vec![Flid { id: 42, host: Host::Node(9) }])
        }
        _ => panic!("a snapshot is the world"),
    }
}

#[test]
fn the_clock_never_runs_backwards() {
    let mut g = row();
    g.report(5, 500);
    assert_eq!(g.last_tick, 1000);
    assert_eq!(g.advance(1000).map(|flows| flows.len()), None);
    assert_eq!(g.advance(END_OF_TIME + 1).map(|flows| flows.len()), None);
    assert_eq!(g.last_tick, 1000);
}

#[test]
fn a_restart_clears_the_world() {
    let mut g = row();
    g.join(42, 3);
    g.change_flow(42, 0, ReqDir::To2);
    g.tick(3000);
    let out = g.handle(personal(42, Request::Restart));
    assert!(g.flids.is_empty());
    assert_eq!(g.nodes.len(), 100);
    assert_eq!(g.flows.len(), g.links.len() + g.nodes.len());
    for f in &g.flows {
        assert_eq!(f.amount, 0);
        if let FlowHost::Link { heading, blobs, .. } = &f.host {
            assert!(heading.is_none());
            assert!(blobs.is_empty());
        }
    }
    assert_eq!(out.len(), 1);
    assert_eq!(out[0].whom, Address::All);
    match &out[0].response {
        Response::GameState(snapshot) => {
            assert_eq!(snapshot.nodes, g.nodes);
            assert_eq!(snapshot.links, g.links);
            assert!(snapshot.flids.is_empty());
        }
        _ => panic!("a restart is answered with the world"),
    }
}

#[test]
fn a_restart_sets_the_clock() {
    let mut g = row();
    g.join(42, 3);
    let out = g.restart(77);
    assert_eq!(g.last_tick, 77);
    assert!(g.flids.is_empty());
    assert_eq!(g.nodes.len(), 100);
    assert_eq!(out.len(), 1);
    assert_eq!(out[0].whom, Address::All);
    let h = Game::generate(5);
    assert_eq!(h.last_tick, 5);
    assert_eq!(h.nodes.len(), 100);
}

#[test]
fn a_new_world_has_a_hundred_nodes_and_no_players() {
    let g = Game::new();
    assert_eq!(g.nodes.len(), 100);
    assert!(g.flids.is_empty());
    assert_eq!(g.flows.len(), g.links.len() + 100);
    assert_eq!(g.rate, DEFAULT_RATE);
}

#[test]
fn two_new_worlds_differ() {
    let a = Game::new();
    let b = Game::new();
    assert_eq!(a.nodes.len(), b.nodes.len());
    assert!(a.nodes != b.nodes);
}

#[test]
fn requests_are_handled_in_turn() {
    let mut g = Game::new();
    let out = g.handle(personal(7, Request::NewPlayer));
    assert_eq!(out.len(), 2);
    assert_eq!(out[0].whom, Address::Player(7));
    assert_eq!(g.flids.len(), 1);
    assert_eq!(g.flids[0].id, 7);
    let node = match g.flids[0].host {
        Host::Node(n) => n,
        Host::Link(_) => panic!("a new player is parked"),
    };
    assert!(node < g.nodes.len());
    // some link touches the node: the jump along it goes through
    let link = *g.links.iter().find(|l| l.has_id(&node)).unwrap();
    let out = g.handle(personal(7, Request::Jump { link_id: link.id }));
    assert_eq!(out.len(), 1);
    assert!(matches!(out[0].response, Response::FlidUpdate { .. }));
    // and the snapshot that follows shows the avatar under way or arrived
    let out = g.handle(personal(7, Request::GetState));
    assert_eq!(out[0].whom, Address::Player(7));
    match &out[0].response {
        Response::GameState(snapshot) => {
            assert_eq!(snapshot.flids.len(), 1);
            match snapshot.flids[0].host {
                Host::Link(jump) => assert_eq!(jump.id, link.id),
                Host::Node(n) => assert!(link.has_id(&n) && n != node),
            }
        }
        _ => panic!("a snapshot is the world"),
    }
    let out = g.handle(personal(7, Request::PlayerExit));
    assert_eq!(out.len(), 1);
    assert!(g.flids.is_empty());
}

#[test]
fn handled_ticks_are_throttled() {
    let mut g = Game::new();
    g.last_tick = 0;
    let first = g.handle(personal(0, Request::Calc));
    let second = g.handle(personal(0, Request::Calc));
    if !is_nop(&first) {
        assert!(g.last_tick > 0);
    }
    assert!(is_nop(&second));
}

#[test]
fn calc_reports_the_time_of_the_last_tick() {
    let mut g = row();
    g.last_tick = 0;
    let t = g.calc();
    assert_eq!(t, g.last_tick);
    let later = g.calc();
    assert!(later >= t);
}

#[test]
fn a_flow_is_turned_through_a_request() {
    let mut g = row();
    let out = g.handle(personal(3, Request::ChangeFlow { flow_id: 2, dir: ReqDir::To1 }));
    assert_eq!(out.len(), 1);
    assert!(matches!(out[0].response, Response::FlowUpdate { .. }));
    match &g.flows[2].host {
        FlowHost::Link { heading, .. } => {
            let h = heading.unwrap();
            assert_eq!(h.dir, Dir::To1);
            assert_eq!(h.by, Some(3));
        }
        FlowHost::Node(_) => panic!("flow 2 is on a link"),
    }
}

#[test]
fn an_address_reaches_whom_it_names() {
    assert!(!Address::NoOne.reaches(3));
    assert!(Address::Player(3).reaches(3));
    assert!(!Address::Player(3).reaches(4));
    assert!(Address::All.reaches(3));
    assert!(Address::All.reaches(0));
}

#[test]
fn the_clock_is_read_in_whole_milliseconds() {
    assert_eq!(to_millis(0), 0);
    assert_eq!(to_millis(999_999), 0);
    assert_eq!(to_millis(1_000_000), 1);
    assert_eq!(to_millis(2_500_000_000), 2500);
    assert_eq!(to_millis(u64::MAX), LAST_READING);
    let first = now();
    let second = now();
    assert!(first <= second);
    assert!(second <= LAST_READING);
    assert!(LAST_READING < END_OF_TIME);
}

#[test]
fn no_node_is_drawn_from_an_empty_world() {
    let empty = Game::assemble(Vec::new(), Vec::new(), 0);
    assert_eq!(empty.draw_node(), 0);
    let g = row();
    for _ in 0..50 {
        assert!(g.draw_node() < 10);
    }
}

#[test]
fn an_avatar_is_parked_at_the_time_of_the_last_tick() {
    // the last tick was at 15000, and the avatar arrives at 15000
    let mut g = row();
    g.last_tick = 15_000;
    g.flids.push(Flid {
        id: 42,
        host: Host::Link(Jump { id: 7, dir: Dir::To2, start_at: 9000, arrive_at: 15_000 }),
    });
    assert!(g.advance(15_000).is_none());
    assert_eq!(g.flids, vec![Flid { id: 42, host: Host::Node(9) }]);
    assert_eq!(g.last_tick, 15_000);
    for f in &g.flows {
        assert_eq!(f.amount, 0);
    }
    // a second call at the same time changes nothing
    let before = g.snapshot();
    assert!(g.advance(15_000).is_none());
    assert_eq!(g.flids, before.flids);
    assert_eq!(g.last_tick, before.last_tick);
}

#[test]
fn a_snapshot_parks_who_has_arrived_even_if_time_stands() {
    let mut g = row();
    g.join(42, 9);
    g.start_jump(42, 7, 1000);
    g.tick(6999);
    assert!(matches!(g.flids[0].host, Host::Link(_)));
    // the clock is behind the last tick, but the avatar's time has come by any clock
    g.last_tick = 8000;
    let out = g.report(5, 7000);
    assert_eq!(g.last_tick, 8000);
    match &out[0].response {
        Response::GameState(snapshot) => {
            assert_eq!(snapshot.flids, vec![Flid { id: 42, host: Host::Node(3) }])
        }
        _ => panic!("a snapshot is the world"),
    }
    // an avatar whose time has not come stays on its way
    let mut h = row();
    h.join(1, 3);
    h.start_jump(1, 7, 1000);
    h.report(5, 1000);
    assert!(matches!(h.flids[0].host, Host::Link(_)));
}

#[test]
fn a_throttled_tick_parks_nobody() {
    let mut g = row();
    g.join(42, 3);
    g.start_jump(42, 0, 1000);
    g.flids[0].host = Host::Link(Jump { id: 7, dir: Dir::To2, start_at: 900, arrive_at: 1100 });
    assert!(is_nop(&g.tick(1150)));
    assert!(matches!(g.flids[0].host, Host::Link(_)));
    assert!(!is_nop(&g.tick(1200)));
    assert_eq!(g.flids[0].host, Host::Node(9));
}

#[test]
fn a_tick_in_a_world_without_flows_is_answered_with_the_avatars_alone() {
    let mut g = row();
    g.flows = Vec::new();
    g.join(42, 3);
    g.start_jump(42, 7, 1000);
    let out = g.tick(7000);
    assert_eq!(g.last_tick, 7000);
    assert_eq!(g.flids, vec![Flid { id: 42, host: Host::Node(9) }]);
    assert_eq!(out.len(), 1);
    assert_eq!(out[0].whom, Address::All);
    match &out[0].response {
        Response::FlidState { flids } => assert_eq!(*flids, g.flids),
        _ => panic!("a tick without flows is answered with the avatars"),
    }
}

#[test]
fn a_tick_that_changes_flows_tells_of_them_first() {
    let mut g = row();
    let out = g.tick(2000);
    assert_eq!(out.len(), 2);
    assert_eq!(out[0].whom, Address::All);
    assert_eq!(out[1].whom, Address::All);
    match &out[0].response {
        Response::FlowState { flows } => assert_eq!(flows.len(), 10),
        _ => panic!("the changed flows come first"),
    }
    assert!(matches!(out[1].response, Response::FlidState { .. }));
}

#[test]
fn a_new_world_is_stamped_with_a_clock_reading() {
    let mut g = Game::new();
    assert!(g.last_tick <= LAST_READING);
    g.last_tick = u64::MAX;
    g.renew();
    assert!(g.last_tick <= LAST_READING);
}
