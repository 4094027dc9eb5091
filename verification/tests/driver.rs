use linkerd_tcp::lb::endpoint::DialOutcome;
use linkerd_tcp::lb::endpoint::Handoff;
use linkerd_tcp::lb::load::Load;
use linkerd_tcp::lb::manager;
use linkerd_tcp::lb::manager::Manager;
use linkerd_tcp::lb::manager::Managing;
use linkerd_tcp::lb::poll::ConnectionPollSummary;
use linkerd_tcp::lb::DstAddr;
use linkerd_tcp::lb::Error;
use linkerd_tcp::lb::PeerAddr;
use linkerd_tcp::lb::Resolution;
use linkerd_tcp::lb::ResolveError;

fn peer(n: u32) -> PeerAddr {
    PeerAddr::v4(0x0a00_0000 + n, 8080)
}

fn update(peers: &[u32]) -> Resolution {
    Resolution::Update(Ok(peers.iter().map(|n| DstAddr::new(peer(*n), 1.0f32.to_bits())).collect()))
}

fn available(m: &Manager) -> Vec<PeerAddr> {
    (0..m.available_len()).map(|i| m.available(i).unwrap().peer_addr()).collect()
}

/// What stands for the world outside: the connector's answers and the
/// numbering of the dials.
struct World {
    /// The outcomes of the dials to come; once used up, dials connect.
    script: Vec<DialOutcome>,
    next_conn: u64,
    dialed: Vec<(PeerAddr, u64)>,
}

fn world(script: Vec<DialOutcome>) -> World {
    World { script, next_conn: 100, dialed: vec![] }
}

/// One wake of the manager, with the top-up driven to its end.
fn cycle(
    m: &mut Managing,
    w: &mut World,
    intake: &mut Vec<u64>,
    cancelled: &Vec<u64>,
    resolution: Resolution,
    ready: &Vec<u64>,
    failed: &Vec<u64>,
) -> (Vec<Handoff>, Result<ConnectionPollSummary, Error>) {
    let (mut handoffs, answer) = m.poll(intake, cancelled, resolution, ready, failed);
    match answer {
        Err(e) => (handoffs, Err(e)),
        Ok(mut poll) => {
            while let Some(addr) = m.manager.next_dial(&mut poll) {
                let outcome = if w.script.is_empty() {
                    DialOutcome::Connected
                } else {
                    w.script.remove(0)
                };
                w.next_conn += 1;
                w.dialed.push((addr, w.next_conn));
                m.manager.dialed(&mut poll, w.next_conn, outcome);
            }
            let (more, summary) = m.manager.finish_poll(&poll, cancelled);
            handoffs.extend(more);
            (handoffs, Ok(summary))
        }
    }
}

fn cold_started() -> (Managing, World) {
    let mut m = manager::new(String::from("svc"), 2).manage();
    let mut w = world(vec![]);
    let (handoffs, answer) =
        cycle(&mut m, &mut w, &mut vec![], &vec![], update(&[1, 2]), &vec![], &vec![]);
    assert_eq!(handoffs, vec![]);
    assert_eq!(
        answer,
        Ok(ConnectionPollSummary { pending: 0, connected: 2, dispatched: 0, failed: 0 })
    );
    (m, w)
}

#[test]
fn cold_start() {
    let (m, w) = cold_started();
    assert_eq!(available(&m.manager), vec![peer(1), peer(2)]);
    assert_eq!(m.manager.retired_len(), 0);
    assert_eq!(w.dialed, vec![(peer(1), 101), (peer(2), 102)]);
    for i in 0..2 {
        let ep = m.manager.available(i).unwrap();
        assert!(ep.warm() >= 1);
        assert_eq!(ep.load(), Load::Unmeasured);
    }
    assert_eq!(m.manager.available(0).unwrap().connected(), vec![101]);
    assert_eq!(m.manager.available(1).unwrap().connected(), vec![102]);
}

#[test]
fn dispatch_on_warmed_pool() {
    let (mut m, mut w) = cold_started();
    let mut intake = vec![7];
    let (handoffs, answer) =
        cycle(&mut m, &mut w, &mut intake, &vec![], Resolution::NotReady, &vec![], &vec![]);
    assert_eq!(intake, vec![]);
    // The request is satisfied by one of the two peers.
    assert_eq!(handoffs.len(), 1);
    let h = handoffs[0];
    assert_eq!(h.dispatchee, 7);
    let at = m.manager.find_available(h.peer_addr).unwrap();
    // With two endpoints of equal load it is the first.
    assert_eq!(h, Handoff { conn: 101, dispatchee: 7, peer_addr: peer(1) });
    // The top-up made up for the connection that was handed out.
    let ep = m.manager.available(at).unwrap();
    assert_eq!(ep.completing(), vec![101]);
    assert_eq!(ep.load(), Load::Unmeasured);
    assert_eq!(ep.connected(), vec![103]);
    assert_eq!(m.manager.available(1 - at).unwrap().connected(), vec![102]);
    assert_eq!(
        answer,
        Ok(ConnectionPollSummary { pending: 0, connected: 2, dispatched: 0, failed: 0 })
    );
}

#[test]
fn dispatch_takes_a_connection_from_the_pool() {
    let (mut m, _) = cold_started();
    let mut intake = vec![7];
    let handoffs = m.manager.dispatch(&mut intake, &vec![]);
    assert_eq!(handoffs, vec![Handoff { conn: 101, dispatchee: 7, peer_addr: peer(1) }]);
    let ep = m.manager.available(0).unwrap();
    assert_eq!(ep.warm(), 0);
    assert_eq!(ep.in_use(), 1);
    assert_eq!(ep.load(), Load::Unmeasured.incremented());
    assert_eq!(m.manager.available(1).unwrap().warm(), 1);
}

#[test]
fn dispatch_without_endpoints_consumes_nothing() {
    let mut m = manager::new(String::from("svc"), 2);
    let mut intake = vec![1, 2, 3];
    let handoffs = m.dispatch(&mut intake, &vec![2]);
    assert_eq!(handoffs, vec![]);
    assert_eq!(intake, vec![1, 2, 3]);
    // Once a peer is known the requests are taken, oldest first.
    m.update_resolved(Ok(vec![DstAddr::new(peer(1), 0)]));
    let handoffs = m.dispatch(&mut intake, &vec![]);
    assert_eq!(handoffs, vec![]);
    assert_eq!(intake, vec![]);
    assert_eq!(m.available(0).unwrap().dispatchees(), vec![1, 2, 3]);
}

#[test]
fn dispatch_gives_every_request_to_one_endpoint() {
    let mut m = manager::new(String::from("svc"), 0);
    m.update_resolved(Ok((1..=5).map(|n| DstAddr::new(peer(n), 0)).collect()));
    let mut intake: Vec<u64> = (1..=40).collect();
    let handoffs = m.dispatch(&mut intake, &vec![]);
    assert_eq!(handoffs, vec![]);
    assert_eq!(intake, vec![]);
    let mut waiting: Vec<u64> = vec![];
    for i in 0..5 {
        let queue = m.available(i).unwrap().dispatchees();
        // Each endpoint holds its requests in the order in which they came.
        assert!(queue.windows(2).all(|w| w[0] < w[1]));
        waiting.extend(queue);
    }
    waiting.sort();
    assert_eq!(waiting, (1..=40).collect::<Vec<u64>>());
}

#[test]
fn cancelled_request_does_not_take_a_connection() {
    let (mut m, _) = cold_started();
    let mut intake = vec![7, 8];
    let handoffs = m.manager.dispatch(&mut intake, &vec![7]);
    // 7 was given up: the connection stays first and goes to 8.
    assert_eq!(handoffs, vec![Handoff { conn: 101, dispatchee: 8, peer_addr: peer(1) }]);
    assert_eq!(m.manager.available(0).unwrap().dispatchees(), vec![]);
}

#[test]
fn dial_failure() {
    let mut m = manager::new(String::from("svc"), 1).manage();
    let mut w = world(vec![DialOutcome::Failed, DialOutcome::Failed, DialOutcome::Failed]);
    let mut failed_so_far = 0;
    for round in 1..=3 {
        let resolution = if round == 1 { update(&[1]) } else { Resolution::NotReady };
        let (_, answer) = cycle(&mut m, &mut w, &mut vec![], &vec![], resolution, &vec![], &vec![]);
        let summary = answer.unwrap();
        failed_so_far += summary.failed;
        assert_eq!(summary, ConnectionPollSummary { pending: 0, connected: 0, dispatched: 0, failed: 1 });
        assert_eq!(failed_so_far, round);
        // No endpoint is retired or destroyed by failures.
        assert_eq!(available(&m.manager), vec![peer(1)]);
        assert_eq!(m.manager.retired_len(), 0);
        assert_eq!(m.manager.available(0).unwrap().warm(), 0);
    }
    let (_, answer) =
        cycle(&mut m, &mut w, &mut vec![], &vec![], Resolution::NotReady, &vec![], &vec![]);
    assert_eq!(
        answer,
        Ok(ConnectionPollSummary { pending: 0, connected: 1, dispatched: 0, failed: 0 })
    );
    assert_eq!(m.manager.available(0).unwrap().connected(), vec![104]);
    assert_eq!(w.dialed.len(), 4);
}

#[test]
fn dispatchee_cancellation() {
    let mut m = manager::new(String::from("svc"), 1).manage();
    let mut w = world(vec![DialOutcome::Pending]);
    let mut intake = vec![];
    let (_, answer) = cycle(&mut m, &mut w, &mut intake, &vec![], update(&[1]), &vec![], &vec![]);
    assert_eq!(
        answer,
        Ok(ConnectionPollSummary { pending: 1, connected: 0, dispatched: 0, failed: 0 })
    );
    // A request arrives while the dial is in flight, and waits.
    intake.push(7);
    let (handoffs, _) =
        cycle(&mut m, &mut w, &mut intake, &vec![], Resolution::NotReady, &vec![], &vec![]);
    assert_eq!(handoffs, vec![]);
    assert_eq!(m.manager.available(0).unwrap().dispatchees(), vec![7]);
    let load = m.manager.available(0).unwrap().load();
    // Its owner gives up; then the dial completes.
    let (handoffs, answer) =
        cycle(&mut m, &mut w, &mut intake, &vec![7], Resolution::NotReady, &vec![101], &vec![]);
    assert_eq!(handoffs, vec![]);
    assert_eq!(
        answer,
        Ok(ConnectionPollSummary { pending: 0, connected: 1, dispatched: 0, failed: 0 })
    );
    let ep = m.manager.available(0).unwrap();
    assert_eq!(ep.connected(), vec![101]);
    assert_eq!(ep.dispatchees(), vec![]);
    assert_eq!(ep.completing(), vec![]);
    assert_eq!(ep.load(), load);
}

#[test]
fn waiting_request_is_served_when_the_dial_completes() {
    let mut m = manager::new(String::from("svc"), 1).manage();
    let mut w = world(vec![DialOutcome::Pending]);
    let mut intake = vec![];
    cycle(&mut m, &mut w, &mut intake, &vec![], update(&[1]), &vec![], &vec![]);
    intake.push(7);
    intake.push(8);
    cycle(&mut m, &mut w, &mut intake, &vec![], Resolution::NotReady, &vec![], &vec![]);
    assert_eq!(m.manager.in_flight(), vec![101]);
    let (handoffs, answer) =
        cycle(&mut m, &mut w, &mut intake, &vec![], Resolution::NotReady, &vec![101], &vec![]);
    assert_eq!(handoffs, vec![Handoff { conn: 101, dispatchee: 7, peer_addr: peer(1) }]);
    assert_eq!(
        answer,
        Ok(ConnectionPollSummary { pending: 0, connected: 1, dispatched: 1, failed: 0 })
    );
    assert_eq!(m.manager.available(0).unwrap().dispatchees(), vec![8]);
    assert_eq!(m.manager.in_flight(), vec![]);
}

#[test]
fn resolver_end() {
    let (mut m, mut w) = cold_started();
    let mut intake = vec![7];
    let (handoffs, answer) =
        cycle(&mut m, &mut w, &mut intake, &vec![], Resolution::Ended, &vec![], &vec![]);
    assert_eq!(answer, Err(Error::ResolverLost));
    assert!(m.lost);
    // The requests were given out before the stream was found ended.
    assert_eq!(handoffs, vec![Handoff { conn: 101, dispatchee: 7, peer_addr: peer(1) }]);
    let before: Vec<(PeerAddr, Vec<u64>, Vec<u64>)> = (0..2)
        .map(|i| {
            let ep = m.manager.available(i).unwrap();
            (ep.peer_addr(), ep.connected(), ep.completing())
        })
        .collect();
    // From now on nothing is consumed and nothing changes.
    let mut intake = vec![8, 9];
    let (handoffs, answer) =
        cycle(&mut m, &mut w, &mut intake, &vec![], update(&[3]), &vec![], &vec![]);
    assert_eq!(answer, Err(Error::ResolverLost));
    assert_eq!(handoffs, vec![]);
    assert_eq!(intake, vec![8, 9]);
    let after: Vec<(PeerAddr, Vec<u64>, Vec<u64>)> = (0..2)
        .map(|i| {
            let ep = m.manager.available(i).unwrap();
            (ep.peer_addr(), ep.connected(), ep.completing())
        })
        .collect();
    assert_eq!(before, after);
    assert_eq!(m.manager.available_len(), 2);
    assert_eq!(w.dialed.len(), 2);
}

#[test]
fn resolver_errors_are_passed_over() {
    let (mut m, mut w) = cold_started();
    for resolution in [Resolution::Failed, Resolution::Update(Err(ResolveError {}))] {
        let (_, answer) = cycle(&mut m, &mut w, &mut vec![], &vec![], resolution, &vec![], &vec![]);
        assert!(answer.is_ok());
        assert!(!m.lost);
        assert_eq!(available(&m.manager), vec![peer(1), peer(2)]);
    }
}

#[test]
fn manage_keeps_the_manager() {
    let mut m = manager::new(String::from("svc"), 4);
    m.update_resolved(Ok(vec![DstAddr::new(peer(1), 0)]));
    let managing = m.manage();
    assert!(!managing.lost);
    assert_eq!(managing.manager.minimum_connections(), 4);
    assert_eq!(available(&managing.manager), vec![peer(1)]);
}

#[test]
fn top_up_goes_round_the_endpoints() {
    let mut m = manager::new(String::from("svc"), 5).manage();
    let mut w = world(vec![]);
    let (_, answer) =
        cycle(&mut m, &mut w, &mut vec![], &vec![], update(&[1, 2, 3]), &vec![], &vec![]);
    assert_eq!(
        answer,
        Ok(ConnectionPollSummary { pending: 0, connected: 5, dispatched: 0, failed: 0 })
    );
    let peers: Vec<PeerAddr> = w.dialed.iter().map(|d| d.0).collect();
    assert_eq!(peers, vec![peer(1), peer(2), peer(3), peer(1), peer(2)]);
    assert_eq!(m.manager.available(0).unwrap().connected(), vec![101, 104]);
    assert_eq!(m.manager.available(1).unwrap().connected(), vec![102, 105]);
    assert_eq!(m.manager.available(2).unwrap().connected(), vec![103]);
}

#[test]
fn top_up_floor() {
    // Whatever mix of dials in flight and connected, the top-up ends with
    // the minimum reached as long as no dial fails.
    let mut m = manager::new(String::from("svc"), 7).manage();
    let mut w = world(vec![
        DialOutcome::Pending,
        DialOutcome::Connected,
        DialOutcome::Pending,
        DialOutcome::Pending,
    ]);
    let (_, answer) =
        cycle(&mut m, &mut w, &mut vec![], &vec![], update(&[1, 2, 3]), &vec![], &vec![]);
    let summary = answer.unwrap();
    assert_eq!(summary, ConnectionPollSummary { pending: 3, connected: 4, dispatched: 0, failed: 0 });
    let mut total = 0;
    for i in 0..3 {
        let ep = m.manager.available(i).unwrap();
        total += ep.pending() + ep.warm();
    }
    assert_eq!(total, 7);
    // A later wake finds the minimum met and dials no more.
    let (_, answer) =
        cycle(&mut m, &mut w, &mut vec![], &vec![], Resolution::NotReady, &vec![], &vec![]);
    assert_eq!(answer.unwrap(), summary);
    assert_eq!(w.dialed.len(), 7);
}

#[test]
fn top_up_stops_after_a_round_without_a_dial_accepted() {
    let mut m = manager::new(String::from("svc"), 4).manage();
    // First round: one of three dials is accepted, so a second round
    // follows; in it every dial fails and the top-up ends.
    let mut w = world(vec![
        DialOutcome::Failed,
        DialOutcome::Pending,
        DialOutcome::Failed,
        DialOutcome::Failed,
        DialOutcome::Failed,
        DialOutcome::Failed,
    ]);
    let (_, answer) =
        cycle(&mut m, &mut w, &mut vec![], &vec![], update(&[1, 2, 3]), &vec![], &vec![]);
    assert_eq!(
        answer,
        Ok(ConnectionPollSummary { pending: 1, connected: 0, dispatched: 0, failed: 5 })
    );
    assert_eq!(w.dialed.len(), 6);
    assert_eq!(m.manager.in_flight(), vec![102]);
}

#[test]
fn no_top_up_without_endpoints() {
    let mut m = manager::new(String::from("svc"), 3).manage();
    let mut w = world(vec![]);
    let (_, answer) =
        cycle(&mut m, &mut w, &mut vec![], &vec![], Resolution::NotReady, &vec![], &vec![]);
    assert_eq!(answer, Ok(ConnectionPollSummary::default()));
    assert_eq!(w.dialed, vec![]);
}

#[test]
fn retired_endpoints_are_not_topped_up_or_polled() {
    let mut m = manager::new(String::from("svc"), 1).manage();
    let mut w = world(vec![DialOutcome::Pending]);
    cycle(&mut m, &mut w, &mut vec![], &vec![], update(&[1]), &vec![], &vec![]);
    // Peer 1 is dropped with its dial in flight: retired.
    let (_, answer) =
        cycle(&mut m, &mut w, &mut vec![], &vec![], update(&[2]), &vec![101], &vec![]);
    assert_eq!(available(&m.manager), vec![peer(2)]);
    assert_eq!(m.manager.retired(0).unwrap().connecting(), vec![101]);
    assert_eq!(m.manager.retired(0).unwrap().connected(), vec![]);
    assert_eq!(
        answer,
        Ok(ConnectionPollSummary { pending: 0, connected: 1, dispatched: 0, failed: 0 })
    );
    assert_eq!(w.dialed, vec![(peer(1), 101), (peer(2), 102)]);
}

#[test]
fn dialed_without_a_dial_awaited_changes_nothing() {
    let mut m = manager::new(String::from("svc"), 1);
    m.update_resolved(Ok(vec![DstAddr::new(peer(1), 0)]));
    let mut poll = m.poll_connecting(&vec![], &vec![]);
    let before = poll;
    m.dialed(&mut poll, 5, DialOutcome::Connected);
    assert_eq!(poll, before);
    assert_eq!(m.available(0).unwrap().warm(), 0);
    assert_eq!(m.next_dial(&mut poll), Some(peer(1)));
    assert!(poll.awaiting);
    m.dialed(&mut poll, 5, DialOutcome::Connected);
    assert_eq!(m.available(0).unwrap().connected(), vec![5]);
    assert_eq!(m.next_dial(&mut poll), None);
}

#[test]
fn release_finds_the_endpoint_in_either_partition() {
    let (mut m, mut w) = cold_started();
    let mut intake = vec![7];
    // 7 takes connection 101 of peer 1; the top-up dials 103.
    cycle(&mut m, &mut w, &mut intake, &vec![], Resolution::NotReady, &vec![], &vec![]);
    // Peer 1 gets a waiting request and is dropped: retired with 101 in use.
    let at = m.manager.find_available(peer(1)).unwrap();
    assert!(m.manager.dispatch_to(at, 8, true).is_some());
    assert_eq!(m.manager.dispatch_to(at, 9, true), None);
    m.manager.update_resolved(Ok(vec![DstAddr::new(peer(2), 0)]));
    assert_eq!(m.manager.retired(0).unwrap().completing(), vec![101, 103]);
    assert!(m.manager.release(101));
    assert_eq!(m.manager.retired(0).unwrap().completing(), vec![103]);
    assert!(!m.manager.release(101));
    assert!(!m.manager.release(102));
    assert_eq!(m.manager.available(0).unwrap().connected(), vec![102]);
}
