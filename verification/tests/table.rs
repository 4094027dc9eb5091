use linkerd_tcp::lb::endpoint::DialOutcome;
use linkerd_tcp::lb::load::Load;
use linkerd_tcp::lb::manager;
use linkerd_tcp::lb::manager::Manager;
use linkerd_tcp::lb::DstAddr;
use linkerd_tcp::lb::PeerAddr;
use linkerd_tcp::lb::ResolveError;

fn peer(n: u32) -> PeerAddr {
    PeerAddr::v4(0x0a00_0000 + n, 8080)
}

fn dst(n: u32, weight: f32) -> DstAddr {
    DstAddr::new(peer(n), weight.to_bits())
}

fn available(m: &Manager) -> Vec<PeerAddr> {
    (0..m.available_len()).map(|i| m.available(i).unwrap().peer_addr()).collect()
}

fn retired(m: &Manager) -> Vec<PeerAddr> {
    (0..m.retired_len()).map(|i| m.retired(i).unwrap().peer_addr()).collect()
}

/// Gives the available endpoint of `addr` a request that has to wait.
fn make_busy(m: &mut Manager, addr: PeerAddr, dispatchee: u64) {
    let at = m.find_available(addr).unwrap();
    assert_eq!(m.dispatch_to(at, dispatchee, true), None);
}

/// Gives the available endpoint of `addr` a warm connection.
fn warm_up(m: &mut Manager, addr: PeerAddr, conn: u64) {
    let at = m.find_available(addr).unwrap();
    let mut poll = m.poll_connecting(&vec![], &vec![]);
    poll.cursor = at;
    poll.awaiting = true;
    m.dialed(&mut poll, conn, DialOutcome::Connected);
}

#[test]
fn new_manager_knows_no_endpoint() {
    let m = manager::new(String::from("svc"), 3);
    assert_eq!(m.available_len(), 0);
    assert_eq!(m.retired_len(), 0);
    assert_eq!(m.minimum_connections(), 3);
    assert_eq!(m.dst_name(), "svc");
    assert!(m.available(0).is_none());
    assert!(m.retired(0).is_none());
}

#[test]
fn update_creates_endpoints_in_order() {
    let mut m = manager::new(String::from("svc"), 2);
    m.update_resolved(Ok(vec![dst(2, 1.0), dst(1, 0.5), dst(3, 2.0)]));
    assert_eq!(available(&m), vec![peer(2), peer(1), peer(3)]);
    assert_eq!(retired(&m), vec![]);
    let ep = m.available(1).unwrap();
    assert_eq!(ep.weight(), 0.5f32.to_bits());
    assert_eq!(ep.load(), Load::Unmeasured);
    assert_eq!(ep.pending(), 0);
    assert_eq!(ep.warm(), 0);
    assert_eq!(ep.waiting(), 0);
    assert_eq!(ep.in_use(), 0);
    assert!(ep.is_idle());
}

#[test]
fn update_error_leaves_table_unchanged() {
    let mut m = manager::new(String::from("svc"), 2);
    m.update_resolved(Ok(vec![dst(1, 1.0), dst(2, 1.0)]));
    make_busy(&mut m, peer(1), 7);
    m.update_resolved(Ok(vec![dst(2, 1.0)]));
    m.update_resolved(Err(ResolveError {}));
    assert_eq!(available(&m), vec![peer(2)]);
    assert_eq!(retired(&m), vec![peer(1)]);
    assert_eq!(m.retired(0).unwrap().dispatchees(), vec![7]);
}

#[test]
fn repeated_peer_keeps_first_place_and_last_weight() {
    let mut m = manager::new(String::from("svc"), 2);
    m.update_resolved(Ok(vec![dst(1, 1.0), dst(2, 1.0), dst(1, 3.0)]));
    assert_eq!(available(&m), vec![peer(1), peer(2)]);
    assert_eq!(m.available(0).unwrap().weight(), 3.0f32.to_bits());
    assert_eq!(m.available(1).unwrap().weight(), 1.0f32.to_bits());
}

#[test]
fn update_renews_weight_of_known_endpoint() {
    let mut m = manager::new(String::from("svc"), 2);
    m.update_resolved(Ok(vec![dst(1, 1.0), dst(2, 1.0)]));
    warm_up(&mut m, peer(1), 40);
    m.update_resolved(Ok(vec![dst(2, 1.0), dst(1, 0.25)]));
    assert_eq!(available(&m), vec![peer(1), peer(2)]);
    let ep = m.available(0).unwrap();
    assert_eq!(ep.weight(), 0.25f32.to_bits());
    assert_eq!(ep.connected(), vec![40]);
}

#[test]
fn empty_update_drops_idle_and_retires_busy() {
    let mut m = manager::new(String::from("svc"), 2);
    m.update_resolved(Ok(vec![dst(1, 1.0), dst(2, 1.0), dst(3, 1.0)]));
    make_busy(&mut m, peer(2), 9);
    warm_up(&mut m, peer(3), 50);
    m.update_resolved(Ok(vec![]));
    assert_eq!(available(&m), vec![]);
    assert_eq!(retired(&m), vec![peer(2)]);
}

#[test]
fn retirement() {
    // B stays available; A, dropped with a request still waiting, is retired
    // and is destroyed by the first update that finds it absent and idle.
    let a = peer(1);
    let b = peer(2);
    let mut m = manager::new(String::from("svc"), 2);
    m.update_resolved(Ok(vec![dst(1, 1.0), dst(2, 1.0)]));
    make_busy(&mut m, a, 7);
    m.update_resolved(Ok(vec![dst(2, 1.0)]));
    assert_eq!(available(&m), vec![b]);
    assert_eq!(retired(&m), vec![a]);
    assert_eq!(m.retired(0).unwrap().dispatchees(), vec![7]);
    // Still absent, still with work: it stays.
    m.update_resolved(Ok(vec![dst(2, 1.0)]));
    assert_eq!(retired(&m), vec![a]);
    assert_eq!(m.find_retired(a), Some(0));
    assert_eq!(m.find_available(a), None);
}

#[test]
fn connection_in_use_does_not_keep_an_endpoint() {
    // An endpoint is idle when no dial is in flight and no request waits. A
    // connection that was handed out is neither, so the update drops A.
    let a = peer(1);
    let mut m = manager::new(String::from("svc"), 2);
    m.update_resolved(Ok(vec![dst(1, 1.0), dst(2, 1.0)]));
    warm_up(&mut m, a, 40);
    let at = m.find_available(a).unwrap();
    assert!(m.dispatch_to(at, 7, true).is_some());
    assert_eq!(m.available(at).unwrap().completing(), vec![40]);
    assert!(m.available(at).unwrap().is_idle());
    m.update_resolved(Ok(vec![dst(2, 1.0)]));
    assert_eq!(available(&m), vec![peer(2)]);
    assert_eq!(retired(&m), vec![]);
}

#[test]
fn resolver_flap() {
    let a = peer(1);
    let b = peer(2);
    let mut m = manager::new(String::from("svc"), 2);
    m.update_resolved(Ok(vec![dst(1, 1.0)]));
    assert_eq!(available(&m), vec![a]);
    m.update_resolved(Ok(vec![dst(1, 1.0), dst(2, 1.0)]));
    assert_eq!(available(&m), vec![a, b]);
    warm_up(&mut m, b, 41);
    assert_eq!(m.available(1).unwrap().connected(), vec![41]);
    // B is idle: dropped without being retired.
    m.update_resolved(Ok(vec![dst(1, 1.0)]));
    assert_eq!(available(&m), vec![a]);
    assert_eq!(retired(&m), vec![]);
    // B is a new record when it comes back.
    m.update_resolved(Ok(vec![dst(1, 1.0), dst(2, 2.0)]));
    assert_eq!(available(&m), vec![a, b]);
    let ep = m.available(1).unwrap();
    assert_eq!(ep.connected(), vec![]);
    assert_eq!(ep.warm(), 0);
    assert_eq!(ep.weight(), 2.0f32.to_bits());
    assert_eq!(ep.load(), Load::Unmeasured);
}

#[test]
fn salvage_returns_the_same_record() {
    let a = peer(1);
    let mut m = manager::new(String::from("svc"), 2);
    m.update_resolved(Ok(vec![dst(1, 1.0), dst(2, 1.0)]));
    warm_up(&mut m, a, 40);
    let at = m.find_available(a).unwrap();
    assert!(m.dispatch_to(at, 5, true).is_some());
    make_busy(&mut m, a, 6);
    make_busy(&mut m, a, 7);
    m.update_resolved(Ok(vec![dst(2, 1.0)]));
    assert_eq!(retired(&m), vec![a]);
    m.update_resolved(Ok(vec![dst(3, 1.0), dst(1, 4.0), dst(2, 1.0)]));
    // Salvaged endpoints come behind those that were available, new ones last.
    assert_eq!(available(&m), vec![peer(2), a, peer(3)]);
    assert_eq!(retired(&m), vec![]);
    let ep = m.available(1).unwrap();
    assert_eq!(ep.dispatchees(), vec![6, 7]);
    assert_eq!(ep.completing(), vec![40]);
    assert_eq!(ep.connected(), vec![]);
    assert_eq!(ep.weight(), 4.0f32.to_bits());
}

#[test]
fn retirement_drain_destroys_idle_retired_endpoint() {
    let a = peer(1);
    let mut m = manager::new(String::from("svc"), 1);
    m.update_resolved(Ok(vec![dst(1, 1.0), dst(2, 1.0)]));
    make_busy(&mut m, a, 7);
    m.update_resolved(Ok(vec![dst(2, 1.0)]));
    assert_eq!(retired(&m), vec![a]);
    // Back among the available, the waiting request gets a connection.
    m.update_resolved(Ok(vec![dst(2, 1.0), dst(1, 1.0)]));
    warm_up(&mut m, a, 40);
    let poll = m.poll_connecting(&vec![], &vec![]);
    let (handoffs, _) = m.finish_poll(&poll, &vec![]);
    assert_eq!(handoffs.len(), 1);
    assert!(m.available(m.find_available(a).unwrap()).unwrap().is_idle());
    m.update_resolved(Ok(vec![dst(2, 1.0)]));
    assert_eq!(available(&m), vec![peer(2)]);
    assert_eq!(retired(&m), vec![]);
}

#[test]
fn partition_holds_through_updates() {
    let mut m = manager::new(String::from("svc"), 1);
    let updates: Vec<Vec<u32>> = vec![
        vec![1, 2, 3],
        vec![2],
        vec![3, 1],
        vec![],
        vec![1, 2, 3, 4],
        vec![4, 4, 1],
    ];
    let mut dispatchee = 0;
    for update in updates {
        for i in 0..m.available_len() {
            if i % 2 == 0 {
                dispatchee += 1;
                assert_eq!(m.dispatch_to(i, dispatchee, true), None);
            }
        }
        m.update_resolved(Ok(update.iter().map(|n| dst(*n, 1.0)).collect()));
        let av = available(&m);
        let rt = retired(&m);
        for (i, x) in av.iter().enumerate() {
            assert!(!rt.contains(x));
            assert!(!av[i + 1..].contains(x));
            assert!(update.iter().any(|n| peer(*n) == *x));
        }
        for (i, x) in rt.iter().enumerate() {
            assert!(!rt[i + 1..].contains(x));
            assert!(!update.iter().any(|n| peer(*n) == *x));
        }
    }
}

#[test]
fn sweep_keeps_order_of_entries_that_stay() {
    let mut m = manager::new(String::from("svc"), 1);
    m.update_resolved(Ok(vec![dst(1, 1.0), dst(2, 1.0), dst(3, 1.0), dst(4, 1.0)]));
    make_busy(&mut m, peer(1), 1);
    make_busy(&mut m, peer(3), 3);
    m.update_resolved(Ok(vec![dst(4, 1.0), dst(2, 1.0)]));
    assert_eq!(available(&m), vec![peer(2), peer(4)]);
    assert_eq!(retired(&m), vec![peer(1), peer(3)]);
    make_busy(&mut m, peer(2), 2);
    m.update_resolved(Ok(vec![dst(4, 1.0)]));
    assert_eq!(available(&m), vec![peer(4)]);
    assert_eq!(retired(&m), vec![peer(1), peer(3), peer(2)]);
}

#[test]
fn ipv6_peers_differ_by_scope_and_flow() {
    let a = PeerAddr::v6(1, 443, 0, 0);
    let b = PeerAddr::v6(1, 443, 0, 2);
    let c = PeerAddr::v6(1, 443, 9, 0);
    let d = PeerAddr::v4(1, 443);
    let mut m = manager::new(String::from("svc"), 1);
    m.update_resolved(Ok(vec![
        DstAddr::new(a, 0),
        DstAddr::new(b, 0),
        DstAddr::new(c, 0),
        DstAddr::new(d, 0),
        DstAddr::new(a, 1),
    ]));
    assert_eq!(available(&m), vec![a, b, c, d]);
    assert_eq!(PeerAddr::of_key(a.key()), a);
    assert_eq!(m.find_available(c), Some(2));
    assert_eq!(m.find_available(PeerAddr::v6(1, 444, 0, 0)), None);
}
