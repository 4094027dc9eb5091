use linkerd_tcp::lb::endpoint::contains_id;
use linkerd_tcp::lb::endpoint::DialOutcome;
use linkerd_tcp::lb::endpoint::Endpoint;
use linkerd_tcp::lb::endpoint::Handoff;
use linkerd_tcp::lb::load::Load;
use linkerd_tcp::lb::PeerAddr;

fn peer() -> PeerAddr {
    PeerAddr::v4(0x7f00_0001, 4140)
}

fn endpoint() -> Endpoint {
    Endpoint::new(String::from("svc"), peer(), 1.0f32.to_bits())
}

#[test]
fn new_endpoint_is_empty_and_unmeasured() {
    let ep = endpoint();
    assert_eq!(ep.peer_addr(), peer());
    assert_eq!(ep.weight(), 1.0f32.to_bits());
    assert_eq!(ep.load(), Load::Unmeasured);
    assert_eq!(ep.connecting(), vec![]);
    assert_eq!(ep.connected(), vec![]);
    assert_eq!(ep.dispatchees(), vec![]);
    assert_eq!(ep.completing(), vec![]);
    assert!(ep.is_idle());
}

#[test]
fn set_weight_changes_only_the_weight() {
    let mut ep = endpoint();
    ep.dialed(1, DialOutcome::Connected);
    ep.set_weight(0.5f32.to_bits());
    assert_eq!(ep.weight(), 0.5f32.to_bits());
    assert_eq!(ep.connected(), vec![1]);
    assert_eq!(ep.load(), Load::Unmeasured);
}

#[test]
fn idle_means_no_dial_and_no_waiting_request() {
    let mut ep = endpoint();
    ep.dialed(1, DialOutcome::Connected);
    assert!(ep.is_idle());
    ep.dialed(2, DialOutcome::Pending);
    assert!(!ep.is_idle());
    let mut ep = endpoint();
    assert_eq!(ep.dispatch(9, true), None);
    assert!(!ep.is_idle());
}

#[test]
fn dial_outcomes_go_to_their_queues() {
    let mut ep = endpoint();
    ep.dialed(1, DialOutcome::Pending);
    ep.dialed(2, DialOutcome::Connected);
    ep.dialed(3, DialOutcome::Failed);
    ep.dialed(4, DialOutcome::Pending);
    ep.dialed(5, DialOutcome::Connected);
    assert_eq!(ep.connecting(), vec![1, 4]);
    assert_eq!(ep.connected(), vec![2, 5]);
    assert_eq!(ep.pending(), 2);
    assert_eq!(ep.warm(), 2);
}

#[test]
fn dispatch_without_connection_queues_the_request() {
    let mut ep = endpoint();
    assert_eq!(ep.dispatch(7, true), None);
    assert_eq!(ep.dispatch(8, false), None);
    assert_eq!(ep.dispatchees(), vec![7, 8]);
    assert_eq!(ep.waiting(), 2);
    assert_eq!(ep.load(), Load::Unmeasured);
}

#[test]
fn dispatch_hands_out_the_oldest_connection() {
    let mut ep = endpoint();
    ep.dialed(1, DialOutcome::Connected);
    ep.dialed(2, DialOutcome::Connected);
    let h = ep.dispatch(7, true);
    assert_eq!(h, Some(Handoff { conn: 1, dispatchee: 7, peer_addr: peer() }));
    assert_eq!(ep.connected(), vec![2]);
    assert_eq!(ep.completing(), vec![1]);
    assert_eq!(ep.dispatchees(), vec![]);
    assert_eq!(ep.in_use(), 1);
    let h = ep.dispatch(8, true);
    assert_eq!(h, Some(Handoff { conn: 2, dispatchee: 8, peer_addr: peer() }));
    assert_eq!(ep.connected(), vec![]);
    assert_eq!(ep.completing(), vec![1, 2]);
}

#[test]
fn failed_send_keeps_the_connection_first() {
    let mut ep = endpoint();
    ep.dialed(1, DialOutcome::Connected);
    ep.dialed(2, DialOutcome::Connected);
    assert_eq!(ep.dispatch(7, false), None);
    assert_eq!(ep.connected(), vec![1, 2]);
    assert_eq!(ep.dispatchees(), vec![]);
    assert_eq!(ep.completing(), vec![]);
    assert_eq!(ep.load(), Load::Unmeasured);
}

#[test]
fn mk_ctx_books_the_connection_as_in_use() {
    let mut ep = endpoint();
    ep.dialed(4, DialOutcome::Connected);
    let h = ep.mk_ctx(3, 11);
    assert_eq!(h, Handoff { conn: 3, dispatchee: 11, peer_addr: peer() });
    assert_eq!(ep.connected(), vec![4]);
    assert_eq!(ep.completing(), vec![3]);
    assert_eq!(ep.load(), Load::Unmeasured);
    assert!(ep.release(3));
    assert_eq!(ep.completing(), vec![]);
}

#[test]
fn advance_moves_ready_drops_failed_keeps_pending_in_order() {
    let mut ep = endpoint();
    for conn in 1..=6 {
        ep.dialed(conn, DialOutcome::Pending);
    }
    ep.dialed(10, DialOutcome::Connected);
    let failures = ep.advance(&vec![5, 2], &vec![3, 2, 99]);
    assert_eq!(failures, 1);
    assert_eq!(ep.connecting(), vec![1, 4, 6]);
    assert_eq!(ep.connected(), vec![10, 2, 5]);
}

#[test]
fn advance_without_reports_changes_nothing() {
    let mut ep = endpoint();
    ep.dialed(1, DialOutcome::Pending);
    ep.dialed(2, DialOutcome::Pending);
    assert_eq!(ep.advance(&vec![], &vec![]), 0);
    assert_eq!(ep.connecting(), vec![1, 2]);
    assert_eq!(ep.connected(), vec![]);
}

#[test]
fn drain_pairs_oldest_with_oldest() {
    let mut ep = endpoint();
    for d in [21, 22, 23] {
        assert_eq!(ep.dispatch(d, true), None);
    }
    ep.dialed(1, DialOutcome::Connected);
    ep.dialed(2, DialOutcome::Connected);
    let mut out = vec![Handoff { conn: 0, dispatchee: 0, peer_addr: peer() }];
    ep.drain(&vec![], &mut out);
    assert_eq!(
        out,
        vec![
            Handoff { conn: 0, dispatchee: 0, peer_addr: peer() },
            Handoff { conn: 1, dispatchee: 21, peer_addr: peer() },
            Handoff { conn: 2, dispatchee: 22, peer_addr: peer() },
        ]
    );
    assert_eq!(ep.connected(), vec![]);
    assert_eq!(ep.dispatchees(), vec![23]);
    assert_eq!(ep.completing(), vec![1, 2]);
}

#[test]
fn drain_drops_cancelled_requests_and_keeps_their_connection() {
    let mut ep = endpoint();
    for d in [21, 22, 23, 24] {
        assert_eq!(ep.dispatch(d, true), None);
    }
    ep.dialed(1, DialOutcome::Connected);
    ep.dialed(2, DialOutcome::Connected);
    let mut out = vec![];
    ep.drain(&vec![21, 23], &mut out);
    assert_eq!(
        out,
        vec![
            Handoff { conn: 1, dispatchee: 22, peer_addr: peer() },
            Handoff { conn: 2, dispatchee: 24, peer_addr: peer() },
        ]
    );
    assert_eq!(ep.dispatchees(), vec![]);
    assert_eq!(ep.connected(), vec![]);
}

#[test]
fn drain_leaves_cancelled_requests_that_it_does_not_reach() {
    let mut ep = endpoint();
    for d in [21, 22, 23] {
        assert_eq!(ep.dispatch(d, true), None);
    }
    ep.dialed(1, DialOutcome::Connected);
    let mut out = vec![];
    ep.drain(&vec![23], &mut out);
    assert_eq!(out, vec![Handoff { conn: 1, dispatchee: 21, peer_addr: peer() }]);
    assert_eq!(ep.dispatchees(), vec![22, 23]);
}

#[test]
fn drain_hands_each_connection_and_request_at_most_once() {
    let mut ep = endpoint();
    for d in 100..120 {
        assert_eq!(ep.dispatch(d, true), None);
    }
    for conn in 1..=12 {
        ep.dialed(conn, DialOutcome::Connected);
    }
    let cancelled = vec![101, 105, 106];
    let mut out = vec![];
    ep.drain(&cancelled, &mut out);
    assert_eq!(out.len(), 12);
    for (i, h) in out.iter().enumerate() {
        assert!(!cancelled.contains(&h.dispatchee));
        assert!(!ep.connected().contains(&h.conn));
        assert!(!ep.dispatchees().contains(&h.dispatchee));
        for other in &out[i + 1..] {
            assert_ne!(h.conn, other.conn);
            assert_ne!(h.dispatchee, other.dispatchee);
        }
    }
}

#[test]
fn release_forgets_the_connection() {
    let mut ep = endpoint();
    for conn in [1, 2, 3] {
        ep.dialed(conn, DialOutcome::Connected);
        assert!(ep.dispatch(conn + 10, true).is_some());
    }
    assert_eq!(ep.completing(), vec![1, 2, 3]);
    assert!(ep.release(2));
    assert_eq!(ep.completing(), vec![1, 3]);
    assert!(!ep.release(2));
    assert!(!ep.release(9));
    assert_eq!(ep.completing(), vec![1, 3]);
    assert_eq!(ep.load(), Load::Unmeasured);
}

#[test]
fn contains_id_finds_what_is_there() {
    assert!(contains_id(&vec![3, 1, 2], 2));
    assert!(contains_id(&vec![3, 1, 2], 3));
    assert!(!contains_id(&vec![3, 1, 2], 4));
    assert!(!contains_id(&vec![], 0));
}
