use linkerd_tcp::lb::choice::draw_candidates;
use linkerd_tcp::lb::choice::skip_over;
use linkerd_tcp::lb::manager;
use linkerd_tcp::lb::manager::Manager;
use linkerd_tcp::lb::DstAddr;
use linkerd_tcp::lb::PeerAddr;

fn peer(n: u32) -> PeerAddr {
    PeerAddr::v4(0x0a00_0000 + n, 8080)
}

fn manager_with(n: u32) -> Manager {
    let mut m = manager::new(String::from("svc"), 0);
    m.update_resolved(Ok((1..=n).map(|i| DstAddr::new(peer(i), 1.0f32.to_bits())).collect()));
    m
}

#[test]
fn nothing_to_select_from_an_empty_table() {
    let m = manager_with(0);
    assert_eq!(m.select_endpoint(), None);
}

#[test]
fn sole_endpoint_is_selected() {
    let m = manager_with(1);
    for _ in 0..20 {
        assert_eq!(m.select_endpoint(), Some(0));
    }
}

#[test]
fn two_equal_endpoints_select_the_first() {
    // With two endpoints the candidates are 0 and 1, and ties go to the first.
    let m = manager_with(2);
    for _ in 0..20 {
        assert_eq!(m.select_endpoint(), Some(0));
    }
}

#[test]
fn ties_resolve_to_the_first_candidate() {
    let m = manager_with(4);
    for i0 in 0..4 {
        for i1 in 0..4 {
            assert_eq!(m.lesser_loaded(i0, i1), i0);
        }
    }
}

#[test]
fn skip_over_reaches_every_other_index_once() {
    for n in 3..8usize {
        for first in 0..n {
            let seconds: Vec<usize> = (0..n - 1).map(|below| skip_over(first, below)).collect();
            let others: Vec<usize> = (0..n).filter(|i| *i != first).collect();
            assert_eq!(seconds, others);
        }
    }
    assert_eq!(skip_over(2, 1), 1);
    assert_eq!(skip_over(2, 2), 3);
    assert_eq!(skip_over(0, 0), 1);
}

#[test]
fn candidates_of_two_are_both() {
    assert_eq!(draw_candidates(2), (0, 1));
}

#[test]
fn candidates_are_distinct_and_in_range() {
    for n in 3..10usize {
        for _ in 0..200 {
            let (i0, i1) = draw_candidates(n);
            assert!(i0 < n);
            assert!(i1 < n);
            assert_ne!(i0, i1);
        }
    }
}

#[test]
fn selection_fairness() {
    // Among equal loads the first candidate wins, and it is drawn evenly:
    // every endpoint is a candidate in 2 of n draws and is selected in 1 of n.
    let n = 5usize;
    let draws = 20_000usize;
    let m = manager_with(n as u32);
    let mut selected = vec![0usize; n];
    let mut candidate = vec![0usize; n];
    for _ in 0..draws {
        let i = m.select_endpoint().unwrap();
        assert!(i < n);
        selected[i] += 1;
        let (i0, i1) = draw_candidates(n);
        candidate[i0] += 1;
        candidate[i1] += 1;
    }
    for i in 0..n {
        let share = selected[i] as f64 / draws as f64;
        assert!((share - 1.0 / n as f64).abs() < 0.03, "selected {}: {}", i, share);
        let share = candidate[i] as f64 / draws as f64;
        assert!((share - 2.0 / n as f64).abs() < 0.03, "candidate {}: {}", i, share);
    }
}
