//! The manager of one destination's endpoints.
use super::choice::draw_candidates;
use super::DstAddr;
use super::endpoint::contains_id;
use super::endpoint::DialOutcome;
use super::endpoint::Endpoint;
use super::endpoint::EndpointView;
use super::endpoint::Handoff;
use super::endpoint::lemma_drained_keeps;
use super::Error;
use super::lemmas::lemma_absent_before;
use super::lemmas::lemma_addr_index;
use super::lemmas::lemma_concat_distinct;
use super::lemmas::lemma_filter_contrary;
use super::lemmas::lemma_filter_distinct;
use super::lemmas::lemma_filter_has_addr;
use super::lemmas::lemma_filter_idempotent;
use super::lemmas::lemma_filter_step;
use super::lemmas::lemma_has_addr_concat;
use super::lemmas::lemma_mapping;
use super::lemmas::lemma_mapping_step;
use super::lemmas::lemma_named_index;
use super::lemmas::lemma_resolved_wf;
use super::lemmas::lemma_split_distinct;
use super::lemmas::lemma_upsert;
use super::lemmas::lemma_upsert_all_step;
use super::model::distinct_addrs;
use super::model::drain_handoffs;
use super::model::first_awaiting;
use super::model::has_addr;
use super::model::in_flight;
use super::model::is_named;
use super::model::is_retiring;
use super::model::ManagerView;
use super::model::mapping;
use super::model::named;
use super::model::upsert_all;
use super::PeerAddr;
use super::PeerKey;
use super::poll::clip;
use super::poll::ConnectionPoll;
use super::poll::ConnectionPollSummary;
use super::poll::lemma_failures_step;
use super::poll::lemma_totals_step;
use super::poll::lemma_totals_update;
use super::poll::total_connected;
use super::poll::total_failures;
use super::poll::total_pending;
use super::Resolution;
use super::ResolveError;
use super::table::endpoint_at;
use super::table::endpoint_at_mut;
use super::table::endpoint_entries;
use super::table::endpoints_drain;
use super::table::endpoints_index_of;
use super::table::endpoints_insert;
use super::table::endpoints_len;
use super::table::endpoints_new;
use super::table::has_key;
use ordermap::OrderMap;
use std::collections::VecDeque;
use vstd::prelude::*;

verus! {

/// The values of the endpoints in `s`, in order.
pub open spec fn views(s: Seq<(PeerKey, Endpoint)>) -> Seq<EndpointView> {
    Seq::new(s.len(), |i: int| s[i].1@)
}

/// Every endpoint of `s` is filed under the key of its own peer.
pub open spec fn keyed(s: Seq<(PeerKey, Endpoint)>) -> bool {
    forall|i: int| 0 <= i < s.len() ==> (#[trigger] s[i]).0 == s[i].1@.peer_addr.spec_key()
}

/// The pairs `e` are the new endpoints of the mapping `m`, entry by entry.
pub open spec fn discovered(e: Seq<(PeerKey, Endpoint)>, dst_name: Seq<char>, m: Seq<DstAddr>) -> bool {
    &&& e.len() == m.len()
    &&& forall|j: int|
        0 <= j < e.len() ==> (#[trigger] e[j]).0 == m[j].addr.spec_key() && e[j].1@
            == EndpointView::fresh(dst_name, m[j].addr, m[j].weight)
}

/// Under its own key an endpoint is found exactly where its peer is.
proof fn lemma_keyed(e: Seq<(PeerKey, Endpoint)>, a: PeerAddr)
    requires
        keyed(e),
    ensures
        has_key(e, a.spec_key()) <==> has_addr(views(e), a),
{
    if has_key(e, a.spec_key()) {
        let i = choose|i: int| 0 <= i < e.len() && (#[trigger] e[i]).0 == a.spec_key();
        assert(views(e)[i].peer_addr == a);
    }
    if has_addr(views(e), a) {
        let i = choose|i: int| 0 <= i < views(e).len() && (#[trigger] views(e)[i]).peer_addr == a;
        assert(e[i].0 == a.spec_key());
    }
}

/// The values of a sequence with one pair more.
proof fn lemma_views_push(e: Seq<(PeerKey, Endpoint)>, key: PeerKey, ep: Endpoint)
    ensures
        views(e.push((key, ep))) == views(e).push(ep@),
        keyed(e) && key == ep@.peer_addr.spec_key() ==> keyed(e.push((key, ep))),
{
    assert(views(e.push((key, ep))) =~= views(e).push(ep@));
    if keyed(e) && key == ep@.peer_addr.spec_key() {
        assert forall|i: int|
            0 <= i < e.push((key, ep)).len() implies
            (#[trigger] e.push((key, ep))[i]).0
            == e.push((key, ep))[i].1@.peer_addr.spec_key() by {
            if i < e.len() {
                assert(e.push((key, ep))[i] == e[i]);
            }
        }
    }
}

/// Files `ep` under `key`, which the map does not hold yet, as its last pair.
fn file(m: &mut OrderMap<PeerKey, Endpoint>, key: PeerKey, ep: Endpoint)
    requires
        !has_key(endpoint_entries(*old(m)), key),
    ensures
        endpoint_entries(*final(m)) == endpoint_entries(*old(m)).push((key, ep)),
{
    let prev = endpoints_insert(m, key, ep);
    proof {
        if prev is Some {
            let p = prev->0;
            let i = choose|i: int|
                0 <= i < endpoint_entries(*old(m)).len() && (#[trigger] endpoint_entries(*old(m))[i]) == (
                    key,
                    p,
                );
            assert(endpoint_entries(*old(m))[i].0 == key);
        }
    }
}

/// The new endpoints that an update asks for: one for each peer it names.
fn discover(name: &String, dsts: &Vec<DstAddr>) -> (found: OrderMap<PeerKey, Endpoint>)
    ensures
        discovered(endpoint_entries(found), name@, mapping(dsts@)),
{
    let mut found = endpoints_new();
    let mut i: usize = 0;
    while i < dsts.len()
        invariant
            i <= dsts.len(),
            discovered(endpoint_entries(found), name@, mapping(dsts@.take(i as int))),
        decreases dsts.len() - i,
    {
        let d = dsts[i];
        let ghost m = mapping(dsts@.take(i as int));
        let ghost e = endpoint_entries(found);
        let key = d.addr.key();
        let ep = Endpoint::new(name.clone(), d.addr, d.weight);
        let prev = endpoints_insert(&mut found, key, ep);
        proof {
            lemma_mapping(dsts@.take(i as int));
            lemma_mapping_step(dsts@, i as int);
            match prev {
                Some(p) => {
                    let k = choose|k: int|
                        0 <= k < e.len() && (#[trigger] e[k]) == (key, p) && endpoint_entries(found)
                            == e.update(k, (key, ep));
                    assert(m[k].addr == d.addr);
                    lemma_named_index(m, k);
                },
                None => {
                    if named(m, d.addr) {
                        let j = choose|j: int| 0 <= j < m.len() && (#[trigger] m[j]).addr == d.addr;
                        assert(e[j].0 == key);
                    }
                },
            }
        }
        i += 1;
    }
    proof {
        assert(dsts@.take(dsts.len() as int) =~= dsts@);
    }
    found
}

/// Whether the update whose new endpoints are `found` names the peer filed
/// under `key`.
fn names(
    found: &OrderMap<PeerKey, Endpoint>,
    key: PeerKey,
    Ghost(dst_name): Ghost<Seq<char>>,
    Ghost(dsts): Ghost<Seq<DstAddr>>,
) -> (b: bool)
    requires
        discovered(endpoint_entries(*found), dst_name, mapping(dsts)),
    ensures
        b == named(dsts, PeerAddr::spec_of_key(key)),
{
    let at = endpoints_index_of(found, key);
    proof {
        let m = mapping(dsts);
        let a = PeerAddr::spec_of_key(key);
        lemma_mapping(dsts);
        match at {
            Some(i) => {
                assert(m[i as int].addr == a);
            },
            None => {
                if named(m, a) {
                    let j = choose|j: int| 0 <= j < m.len() && (#[trigger] m[j]).addr == a;
                    assert(endpoint_entries(*found)[j].0 == key);
                }
            },
        }
    }
    at.is_some()
}

/// Puts the pairs of `temp` into the empty map `m`, in order.
fn refill(m: &mut OrderMap<PeerKey, Endpoint>, temp: &mut VecDeque<(PeerKey, Endpoint)>)
    requires
        endpoint_entries(*old(m)).len() == 0,
        keyed(old(temp)@),
        distinct_addrs(views(old(temp)@)),
    ensures
        endpoint_entries(*final(m)) == old(temp)@,
        final(temp)@.len() == 0,
{
    let ghost t0 = temp@;
    let ghost mut j: int = 0;
    while temp.len() > 0
        invariant
            0 <= j <= t0.len(),
            keyed(t0),
            distinct_addrs(views(t0)),
            endpoint_entries(*m) == t0.take(j),
            temp@ == t0.skip(j),
        decreases temp.len(),
    {
        let (key, ep) = temp.pop_front().unwrap();
        proof {
            assert(key == t0[j].0 && ep == t0[j].1);
            if has_key(t0.take(j), key) {
                let i = choose|i: int| 0 <= i < t0.take(j).len() && (#[trigger] t0.take(j)[i]).0 == key;
                assert(t0.take(j)[i] == t0[i]);
                assert(views(t0)[i].peer_addr != views(t0)[j].peer_addr);
            }
        }
        file(m, key, ep);
        proof {
            assert(t0.take(j).push((key, ep)) =~= t0.take(j + 1));
            assert(temp@ =~= t0.skip(j + 1));
            j = j + 1;
        }
    }
    proof {
        assert(t0.take(j) =~= t0);
    }
}

/// The sweep of the retired endpoints: those that the update names go back
/// behind the available ones, those without work are dropped, the others
/// stay retired in their order.
fn sweep_retired(
    available: &mut OrderMap<PeerKey, Endpoint>,
    retired: &mut OrderMap<PeerKey, Endpoint>,
    found: &OrderMap<PeerKey, Endpoint>,
    Ghost(dst_name): Ghost<Seq<char>>,
    Ghost(dsts): Ghost<Seq<DstAddr>>,
)
    requires
        keyed(endpoint_entries(*old(available))),
        keyed(endpoint_entries(*old(retired))),
        distinct_addrs(
            views(endpoint_entries(*old(available))) + views(endpoint_entries(*old(retired))),
        ),
        discovered(endpoint_entries(*found), dst_name, mapping(dsts)),
    ensures
        keyed(endpoint_entries(*final(available))),
        keyed(endpoint_entries(*final(retired))),
        views(endpoint_entries(*final(available))) == views(endpoint_entries(*old(available)))
            + views(endpoint_entries(*old(retired))).filter(is_named(dsts)),
        views(endpoint_entries(*final(retired))) == views(endpoint_entries(*old(retired))).filter(
            is_retiring(dsts),
        ),
{
    let ghost a0 = views(endpoint_entries(*available));
    let ghost r0e = endpoint_entries(*retired);
    let ghost r0 = views(r0e);
    let mut drained = endpoints_drain(retired);
    let mut temp: VecDeque<(PeerKey, Endpoint)> = VecDeque::new();
    let ghost mut i: int = 0;
    proof {
        lemma_split_distinct(a0, r0);
        assert(r0.take(0).filter(is_named(dsts)) =~= Seq::empty()) by {
            reveal(Seq::filter);
        }
        assert(r0.take(0).filter(is_retiring(dsts)) =~= Seq::empty()) by {
            reveal(Seq::filter);
        }
        assert(views(temp@) =~= Seq::empty());
        assert(a0 + Seq::<EndpointView>::empty() =~= a0);
        assert(r0e.skip(0) =~= r0e);
    }
    while drained.len() > 0
        invariant
            0 <= i <= r0e.len(),
            r0 == views(r0e),
            keyed(r0e),
            distinct_addrs(a0),
            distinct_addrs(r0),
            forall|a: PeerAddr| has_addr(a0, a) ==> !has_addr(r0, a),
            discovered(endpoint_entries(*found), dst_name, mapping(dsts)),
            drained@ == r0e.skip(i),
            endpoint_entries(*retired).len() == 0,
            keyed(endpoint_entries(*available)),
            views(endpoint_entries(*available)) == a0 + r0.take(i).filter(is_named(dsts)),
            keyed(temp@),
            views(temp@) == r0.take(i).filter(is_retiring(dsts)),
        decreases drained.len(),
    {
        let ghost before = endpoint_entries(*available);
        let ghost temp_before = temp@;
        let (key, ep) = drained.pop_front().unwrap();
        proof {
            assert(key == r0e[i].0 && ep == r0e[i].1);
            assert(ep@ == r0[i]);
            lemma_filter_step(r0, is_named(dsts), i);
            lemma_filter_step(r0, is_retiring(dsts), i);
            assert(drained@ =~= r0e.skip(i + 1));
        }
        if names(found, key, Ghost(dst_name), Ghost(dsts)) {
            proof {
                let a = r0[i].peer_addr;
                lemma_keyed(before, a);
                lemma_has_addr_concat(a0, r0.take(i).filter(is_named(dsts)), a);
                lemma_absent_before(r0, is_named(dsts), i);
                assert(has_addr(r0, a));
            }
            file(available, key, ep);
            proof {
                lemma_views_push(before, key, ep);
                assert(a0 + r0.take(i).filter(is_named(dsts)).push(r0[i]) =~= (a0 + r0.take(i).filter(
                    is_named(dsts),
                )).push(r0[i]));
            }
        } else if ep.is_idle() {
        } else {
            temp.push_back((key, ep));
            proof {
                lemma_views_push(temp_before, key, ep);
            }
        }
        proof {
            i = i + 1;
        }
    }
    proof {
        assert(r0.take(i) =~= r0);
        lemma_filter_distinct(r0, is_retiring(dsts));
    }
    refill(retired, &mut temp);
}

/// The sweep of the available endpoints: those that the update names stay in
/// their order, those without work are dropped, the others become the last
/// of the retired.
fn sweep_available(
    available: &mut OrderMap<PeerKey, Endpoint>,
    retired: &mut OrderMap<PeerKey, Endpoint>,
    found: &OrderMap<PeerKey, Endpoint>,
    Ghost(dst_name): Ghost<Seq<char>>,
    Ghost(dsts): Ghost<Seq<DstAddr>>,
)
    requires
        keyed(endpoint_entries(*old(available))),
        keyed(endpoint_entries(*old(retired))),
        distinct_addrs(views(endpoint_entries(*old(available)))),
        forall|a: PeerAddr|
            has_addr(views(endpoint_entries(*old(available))), a) && !named(dsts, a) ==> !has_addr(
                views(endpoint_entries(*old(retired))),
                a,
            ),
        discovered(endpoint_entries(*found), dst_name, mapping(dsts)),
    ensures
        keyed(endpoint_entries(*final(available))),
        keyed(endpoint_entries(*final(retired))),
        views(endpoint_entries(*final(available))) == views(endpoint_entries(*old(available))).filter(
            is_named(dsts),
        ),
        views(endpoint_entries(*final(retired))) == views(endpoint_entries(*old(retired))) + views(
            endpoint_entries(*old(available)),
        ).filter(is_retiring(dsts)),
{
    let ghost a1e = endpoint_entries(*available);
    let ghost a1 = views(a1e);
    let ghost r1 = views(endpoint_entries(*retired));
    let mut drained = endpoints_drain(available);
    let mut temp: VecDeque<(PeerKey, Endpoint)> = VecDeque::new();
    let ghost mut i: int = 0;
    proof {
        assert(a1.take(0).filter(is_named(dsts)) =~= Seq::empty()) by {
            reveal(Seq::filter);
        }
        assert(a1.take(0).filter(is_retiring(dsts)) =~= Seq::empty()) by {
            reveal(Seq::filter);
        }
        assert(views(temp@) =~= Seq::empty());
        assert(r1 + Seq::<EndpointView>::empty() =~= r1);
        assert(a1e.skip(0) =~= a1e);
    }
    while drained.len() > 0
        invariant
            0 <= i <= a1e.len(),
            a1 == views(a1e),
            keyed(a1e),
            distinct_addrs(a1),
            forall|a: PeerAddr| has_addr(a1, a) && !named(dsts, a) ==> !has_addr(r1, a),
            discovered(endpoint_entries(*found), dst_name, mapping(dsts)),
            drained@ == a1e.skip(i),
            endpoint_entries(*available).len() == 0,
            keyed(endpoint_entries(*retired)),
            views(endpoint_entries(*retired)) == r1 + a1.take(i).filter(is_retiring(dsts)),
            keyed(temp@),
            views(temp@) == a1.take(i).filter(is_named(dsts)),
        decreases drained.len(),
    {
        let ghost before = endpoint_entries(*retired);
        let ghost temp_before = temp@;
        let (key, ep) = drained.pop_front().unwrap();
        proof {
            assert(key == a1e[i].0 && ep == a1e[i].1);
            assert(ep@ == a1[i]);
            lemma_filter_step(a1, is_named(dsts), i);
            lemma_filter_step(a1, is_retiring(dsts), i);
            assert(drained@ =~= a1e.skip(i + 1));
        }
        if names(found, key, Ghost(dst_name), Ghost(dsts)) {
            temp.push_back((key, ep));
            proof {
                lemma_views_push(temp_before, key, ep);
            }
        } else if ep.is_idle() {
        } else {
            proof {
                let a = a1[i].peer_addr;
                lemma_keyed(before, a);
                lemma_has_addr_concat(r1, a1.take(i).filter(is_retiring(dsts)), a);
                lemma_absent_before(a1, is_retiring(dsts), i);
                assert(has_addr(a1, a));
            }
            file(retired, key, ep);
            proof {
                lemma_views_push(before, key, ep);
                assert(r1 + a1.take(i).filter(is_retiring(dsts)).push(a1[i]) =~= (r1 + a1.take(i).filter(
                    is_retiring(dsts),
                )).push(a1[i]));
            }
        }
        proof {
            i = i + 1;
        }
    }
    proof {
        assert(a1.take(i) =~= a1);
        lemma_filter_distinct(a1, is_named(dsts));
    }
    refill(available, &mut temp);
}

/// Applies the mapping of an update, whose new endpoints are `found`: the
/// endpoint of a known peer takes the new weight, that of an unknown peer
/// becomes the last of the available.
fn apply(
    available: &mut OrderMap<PeerKey, Endpoint>,
    found: &mut OrderMap<PeerKey, Endpoint>,
    Ghost(dst_name): Ghost<Seq<char>>,
    Ghost(m): Ghost<Seq<DstAddr>>,
)
    requires
        keyed(endpoint_entries(*old(available))),
        distinct_addrs(views(endpoint_entries(*old(available)))),
        discovered(endpoint_entries(*old(found)), dst_name, m),
    ensures
        keyed(endpoint_entries(*final(available))),
        views(endpoint_entries(*final(available))) == upsert_all(
            views(endpoint_entries(*old(available))),
            dst_name,
            m,
        ),
{
    let ghost a2 = views(endpoint_entries(*available));
    let ghost f0 = endpoint_entries(*found);
    let mut drained = endpoints_drain(found);
    let ghost mut j: int = 0;
    proof {
        assert(m.take(0) =~= Seq::empty());
        assert(f0.skip(0) =~= f0);
    }
    while drained.len() > 0
        invariant
            0 <= j <= m.len(),
            discovered(f0, dst_name, m),
            drained@ == f0.skip(j),
            keyed(endpoint_entries(*available)),
            distinct_addrs(views(endpoint_entries(*available))),
            views(endpoint_entries(*available)) == upsert_all(a2, dst_name, m.take(j)),
        decreases drained.len(),
    {
        let ghost before = endpoint_entries(*available);
        let (key, fresh) = drained.pop_front().unwrap();
        proof {
            assert(key == f0[j].0 && fresh == f0[j].1);
            assert(drained@ =~= f0.skip(j + 1));
            lemma_upsert_all_step(a2, dst_name, m, j);
            lemma_upsert(views(before), dst_name, m[j]);
            lemma_keyed(before, m[j].addr);
        }
        match endpoints_index_of(available, key) {
            Some(i) => {
                let weight = fresh.weight();
                let ep = endpoint_at_mut(available, i);
                ep.set_weight(weight);
                proof {
                    assert(views(before)[i as int].peer_addr == m[j].addr);
                    lemma_addr_index(views(before), i as int);
                    assert(views(endpoint_entries(*available)) =~= views(before).update(
                        i as int,
                        views(before)[i as int].with_weight(m[j].weight),
                    ));
                    assert forall|k: int|
                        0 <= k < endpoint_entries(*available).len() implies
                        (#[trigger] endpoint_entries(
                        *available,
                    )[k]).0 == endpoint_entries(*available)[k].1@.peer_addr.spec_key() by {
                        if k != i {
                            assert(endpoint_entries(*available)[k] == before[k]);
                        }
                    }
                }
            },
            None => {
                file(available, key, fresh);
                proof {
                    lemma_views_push(before, key, fresh);
                }
            },
        }
        proof {
            j = j + 1;
        }
    }
    proof {
        assert(m.take(j) =~= m);
    }
}

/// Replacing the value of one endpoint by another of the same peer keeps a
/// table well formed.
proof fn lemma_replaced(
    before: Seq<(PeerKey, Endpoint)>,
    after: Seq<(PeerKey, Endpoint)>,
    i: int,
    ep: Endpoint,
    rest: Seq<EndpointView>,
)
    requires
        0 <= i < before.len(),
        after == before.update(i, (before[i].0, ep)),
        ep@.peer_addr == before[i].1@.peer_addr,
    ensures
        views(after) == views(before).update(i, ep@),
        keyed(before) ==> keyed(after),
        distinct_addrs(views(before) + rest) ==> distinct_addrs(views(after) + rest),
        distinct_addrs(rest + views(before)) ==> distinct_addrs(rest + views(after)),
{
    assert(views(after) =~= views(before).update(i, ep@));
    if keyed(before) {
        assert forall|k: int| 0 <= k < after.len() implies (#[trigger] after[k]).0
            == after[k].1@.peer_addr.spec_key() by {
            if k != i {
                assert(after[k] == before[k]);
            } else {
                assert(before[i].0 == before[i].1@.peer_addr.spec_key());
            }
        }
    }
    let b = views(before) + rest;
    let a = views(after) + rest;
    if distinct_addrs(b) {
        assert forall|j: int, k: int|
            0 <= j < k < a.len() implies
            (#[trigger] a[j]).peer_addr != (#[trigger] a[k]).peer_addr by {
            assert(a[j].peer_addr == b[j].peer_addr);
            assert(a[k].peer_addr == b[k].peer_addr);
        }
    }
    let b = rest + views(before);
    let a = rest + views(after);
    if distinct_addrs(b) {
        assert forall|j: int, k: int|
            0 <= j < k < a.len() implies
            (#[trigger] a[j]).peer_addr != (#[trigger] a[k]).peer_addr by {
            assert(a[j].peer_addr == b[j].peer_addr);
            assert(a[k].peer_addr == b[k].peer_addr);
        }
    }
}

/// A table whose endpoints were changed in place, each keeping its peer, is
/// as well formed as before.
proof fn lemma_same_peers(
    before: Seq<(PeerKey, Endpoint)>,
    after: Seq<(PeerKey, Endpoint)>,
    rest: Seq<EndpointView>,
)
    requires
        after.len() == before.len(),
        forall|k: int|
            0 <= k < before.len() ==> (#[trigger] after[k]).0 == before[k].0 && after[k].1@.peer_addr
                == before[k].1@.peer_addr,
    ensures
        keyed(before) ==> keyed(after),
        distinct_addrs(views(before) + rest) ==> distinct_addrs(views(after) + rest),
{
    if keyed(before) {
        assert forall|k: int| 0 <= k < after.len() implies (#[trigger] after[k]).0
            == after[k].1@.peer_addr.spec_key() by {
            assert(before[k].0 == before[k].1@.peer_addr.spec_key());
        }
    }
    let b = views(before) + rest;
    let a = views(after) + rest;
    if distinct_addrs(b) {
        assert forall|j: int, k: int|
            0 <= j < k < a.len() implies
            (#[trigger] a[j]).peer_addr != (#[trigger] a[k]).peer_addr by {
            if j < before.len() {
                assert(after[j].0 == before[j].0);
            }
            if k < before.len() {
                assert(after[k].0 == before[k].0);
            }
            assert(a[j].peer_addr == b[j].peer_addr);
            assert(a[k].peer_addr == b[k].peer_addr);
        }
    }
}

/// Releases the first endpoint of `m` that awaits the outcome of `conn`.
fn release_in(
    m: &mut OrderMap<PeerKey, Endpoint>,
    conn: u64,
    Ghost(rest): Ghost<Seq<EndpointView>>,
) -> (known: bool)
    requires
        keyed(endpoint_entries(*old(m))),
        distinct_addrs(views(endpoint_entries(*old(m))) + rest),
    ensures
        keyed(endpoint_entries(*final(m))),
        distinct_addrs(views(endpoint_entries(*final(m))) + rest),
        known == (first_awaiting(views(endpoint_entries(*old(m))), conn) is Some),
        views(endpoint_entries(*final(m))) == match first_awaiting(
            views(endpoint_entries(*old(m))),
            conn,
        ) {
            Some(i) => views(endpoint_entries(*old(m))).update(
                i,
                views(endpoint_entries(*old(m)))[i].released(conn),
            ),
            None => views(endpoint_entries(*old(m))),
        },
{
    let ghost start = endpoint_entries(*m);
    let n: usize = endpoints_len(m);
    let mut i: usize = 0;
    while i < n
        invariant
            i <= n,
            n == start.len(),
            start == endpoint_entries(*old(m)),
            endpoint_entries(*m).len() == n,
            keyed(start),
            distinct_addrs(views(start) + rest),
            forall|k: int|
                0 <= k < n ==> (#[trigger] endpoint_entries(*m)[k]).0 == start[k].0 && endpoint_entries(
                    *m,
                )[k].1@ == start[k].1@,
            forall|k: int| 0 <= k < i ==> !(#[trigger] views(start)[k]).completing.contains(conn),
        decreases n - i,
    {
        let ghost before = endpoint_entries(*m);
        let ep = endpoint_at_mut(m, i);
        let known = ep.release(conn);
        proof {
            assert(views(start)[i as int] == start[i as int].1@);
            assert forall|k: int|
                0 <= k < n && k != i implies
                (#[trigger] endpoint_entries(*m)[k]).0
                == start[k].0 && endpoint_entries(*m)[k].1@ == start[k].1@ by {
                assert(endpoint_entries(*m)[k] == before[k]);
            }
        }
        if known {
            proof {
                let found = first_awaiting(views(start), conn);
                assert(views(start)[i as int].completing.contains(conn));
                assert(found is Some);
                let at = found->0;
                if at < i {
                    assert(!views(start)[at].completing.contains(conn));
                } else if i < at {
                    assert(!views(start)[i as int].completing.contains(conn));
                }
                assert(at == i);
                assert(views(endpoint_entries(*m)) =~= views(start).update(
                    i as int,
                    views(start)[i as int].released(conn),
                ));
                lemma_same_peers(start, endpoint_entries(*m), rest);
            }
            return true;
        }
        i += 1;
    }
    proof {
        assert(views(endpoint_entries(*m)) =~= views(start));
        lemma_same_peers(start, endpoint_entries(*m), rest);
    }
    false
}

/// A manager for the destination `dst` that keeps at least `min_conns`
/// connections warm or in the making. It knows no endpoint yet.
pub fn new(dst: String, min_conns: usize) -> (m: Manager)
    ensures
        m.wf(),
        m@ == (ManagerView {
            dst_name: dst@,
            minimum_connections: min_conns as nat,
            available: Seq::empty(),
            retired: Seq::empty(),
        }),
{
    let m = Manager {
        dst_name: dst,
        minimum_connections: min_conns,
        available: endpoints_new(),
        retired: endpoints_new(),
    };
    assert(views(endpoint_entries(m.available)) =~= Seq::empty());
    assert(views(endpoint_entries(m.retired)) =~= Seq::empty());
    m
}

/// The endpoint table of one destination and the rules that maintain it.
pub struct Manager {
    dst_name: String,
    minimum_connections: usize,
    /// The endpoints that new requests may be given to.
    available: OrderMap<PeerKey, Endpoint>,
    /// The endpoints that only finish the work they have.
    retired: OrderMap<PeerKey, Endpoint>,
}

impl View for Manager {
    type V = ManagerView;

    closed spec fn view(&self) -> ManagerView {
        ManagerView {
            dst_name: self.dst_name@,
            minimum_connections: self.minimum_connections as nat,
            available: views(endpoint_entries(self.available)),
            retired: views(endpoint_entries(self.retired)),
        }
    }
}

impl Manager {
    /// Puts the manager to work on a service-discovery stream.
    pub fn manage(self) -> (managing: Managing)
        ensures
            managing.manager == self,
            !managing.lost,
    {
        Managing { manager: self, lost: false }
    }

    /// The table is well formed: every peer has at most one endpoint, and
    /// each endpoint is filed under its peer.
    pub closed spec fn wf(&self) -> bool {
        &&& self@.wf()
        &&& keyed(endpoint_entries(self.available))
        &&& keyed(endpoint_entries(self.retired))
    }

    /// The table of a well-formed manager is a partition of its peers.
    pub proof fn lemma_wf(&self)
        requires
            self.wf(),
        ensures
            self@.wf(),
    {
    }

    /// Of the available endpoints at `i0` and `i1`, the position of the one
    /// with the smaller load. Where the loads are equal it is `i0`.
    pub fn lesser_loaded(&self, i0: usize, i1: usize) -> (i: usize)
        requires
            i0 < self@.available.len(),
            i1 < self@.available.len(),
        ensures
            i == self@.lesser_loaded(i0 as int, i1 as int),
    {
        let load0 = endpoint_at(&self.available, i0).load();
        let load1 = endpoint_at(&self.available, i1).load();
        if load0.at_most(&load1) {
            i0
        } else {
            i1
        }
    }

    /// Selects an available endpoint for a new request: none where there is
    /// none, the only one where there is one, and else the lesser loaded of
    /// two candidates, which are drawn at random where there are more than
    /// two endpoints. Returns the endpoint's position.
    pub fn select_endpoint(&self) -> (selected: Option<usize>)
        ensures
            match selected {
                None => self@.available.len() == 0,
                Some(i) => i < self@.available.len() && self@.may_select(i as int),
            },
    {
        let n: usize = endpoints_len(&self.available);
        if n == 0 {
            None
        } else if n == 1 {
            Some(0)
        } else {
            let (i0, i1) = draw_candidates(n);
            Some(self.lesser_loaded(i0, i1))
        }
    }

    /// Gives the request `dispatchee` to the available endpoint at `i`, and
    /// returns the hand-off if the request gets a connection at once.
    pub fn dispatch_to(&mut self, i: usize, dispatchee: u64, live: bool) -> (h: Option<Handoff>)
        requires
            old(self).wf(),
            i < old(self)@.available.len(),
        ensures
            final(self).wf(),
            final(self)@ == old(self)@.dispatched_to(i as int, dispatchee, live),
            h == old(self)@.available[i as int].handoff(dispatchee, live),
    {
        let ghost before = endpoint_entries(self.available);
        let ep = endpoint_at_mut(&mut self.available, i);
        let h = ep.dispatch(dispatchee, live);
        proof {
            lemma_replaced(
                before,
                endpoint_entries(self.available),
                i as int,
                endpoint_entries(self.available)[i as int].1,
                self@.retired,
            );
        }
        h
    }

    /// Gives out the requests that wait in `intake`, oldest first, each to
    /// a selected endpoint, and returns the hand-offs decided on.
    ///
    /// While no endpoint is available nothing is consumed: the requests
    /// stay in `intake` for a later call. `cancelled` holds the requests
    /// whose owners have given up.
    pub fn dispatch(&mut self, intake: &mut Vec<u64>, cancelled: &Vec<u64>) -> (handoffs: Vec<Handoff>)
        requires
            old(self).wf(),
        ensures
            final(self).wf(),
            old(self)@.gives_out(old(intake)@, cancelled@, final(self)@, handoffs@),
            final(intake)@ == if old(self)@.available.len() == 0 {
                old(intake)@
            } else {
                Seq::empty()
            },
    {
        let mut handoffs: Vec<Handoff> = Vec::new();
        // Without an endpoint the requests stay where they are.
        if endpoints_len(&self.available) == 0 {
            proof {
                assert(handoffs@ =~= Seq::empty());
            }
            return handoffs;
        }
        let ghost start = self@;
        let ghost mut picks: Seq<int> = Seq::empty();
        let mut k: usize = 0;
        proof {
            assert(intake@.take(0) =~= Seq::empty());
        }
        while k < intake.len()
            invariant
                k <= intake.len(),
                intake@ == old(intake)@,
                self.wf(),
                self@.available.len() == start.available.len(),
                start.available.len() > 0,
                picks.len() == k,
                start.are_picks(intake@.take(k as int), cancelled@, picks),
                self@ == start.dispatch_run(intake@.take(k as int), cancelled@, picks),
                handoffs@ == start.dispatch_handoffs(intake@.take(k as int), cancelled@, picks),
            decreases intake.len() - k,
        {
            let dispatchee: u64 = intake[k];
            let live = !contains_id(cancelled, dispatchee);
            let i: usize = self.select_endpoint().unwrap();
            let ghost earlier = picks;
            let h = self.dispatch_to(i, dispatchee, live);
            if let Some(h) = h {
                handoffs.push(h);
            }
            proof {
                picks = picks.push(i as int);
                let now = intake@.take(k as int + 1);
                assert(now.drop_last() =~= intake@.take(k as int));
                assert(picks.drop_last() =~= earlier);
                assert(now.last() == dispatchee);
                assert forall|j: int| 0 <= j < now.len() implies {
                    let at = start.dispatch_run(now.take(j), cancelled@, picks.take(j));
                    0 <= #[trigger] picks[j] < at.available.len() && at.may_select(picks[j])
                } by {
                    if j < k {
                        assert(now.take(j) =~= intake@.take(k as int).take(j));
                        assert(picks.take(j) =~= earlier.take(j));
                        assert(picks[j] == earlier[j]);
                    } else {
                        assert(now.take(j) =~= intake@.take(k as int));
                        assert(picks.take(j) =~= earlier);
                    }
                }
            }
            k += 1;
        }
        proof {
            assert(intake@.take(k as int) =~= intake@);
            assert(start.dispatches(old(intake)@, cancelled@, picks, self@, handoffs@));
        }
        intake.clear();
        handoffs
    }

    /// Begins a poll of the connections with the reports on the dials in
    /// flight: on every available endpoint the dials in `ready` become warm
    /// connections and those in `failed` are forgotten. The poll that is
    /// returned holds the counts and is ready for the top-up.
    pub fn poll_connecting(&mut self, ready: &Vec<u64>, failed: &Vec<u64>) -> (poll: ConnectionPoll)
        requires
            old(self).wf(),
        ensures
            final(self).wf(),
            final(self)@ == old(self)@.advanced(ready@, failed@),
            poll == ConnectionPoll::begun(old(self)@.polled(ready@, failed@)),
            final(self)@.tracked_by(poll),
            poll.consistent(),
    {
        let mut summary = ConnectionPollSummary::default();
        let ghost start = endpoint_entries(self.available);
        let ghost target = self@.advanced(ready@, failed@).available;
        let n: usize = endpoints_len(&self.available);
        let mut i: usize = 0;
        while i < n
            invariant
                i <= n,
                n == start.len(),
                target.len() == n,
                forall|k: int| 0 <= k < n ==> #[trigger] target[k] == start[k].1@.advanced(ready@, failed@),
                endpoint_entries(self.available).len() == n,
                forall|k: int|
                    0 <= k < i ==> (#[trigger] endpoint_entries(self.available)[k]).0 == start[k].0
                        && endpoint_entries(self.available)[k].1@ == target[k],
                forall|k: int| i <= k < n ==> #[trigger] endpoint_entries(self.available)[k] == start[k],
                endpoint_entries(self.retired) == endpoint_entries(old(self).retired),
                self.dst_name == old(self).dst_name,
                self.minimum_connections == old(self).minimum_connections,
                summary.dispatched == 0,
                summary.pending == clip(total_pending(target.take(i as int)) as int),
                summary.connected == clip(total_connected(target.take(i as int)) as int),
                summary.failed == clip(
                    total_failures(views(start).take(i as int), ready@, failed@) as int,
                ),
            decreases n - i,
        {
            let ghost before = endpoint_entries(self.available);
            let ep = endpoint_at_mut(&mut self.available, i);
            let failures: usize = ep.advance(ready, failed);
            summary.failed = summary.failed.saturating_add(failures);
            summary.pending = summary.pending.saturating_add(ep.pending());
            summary.connected = summary.connected.saturating_add(ep.warm());
            proof {
                lemma_totals_step(target, i as int);
                lemma_failures_step(views(start), ready@, failed@, i as int);
                assert(views(start)[i as int] == start[i as int].1@);
                assert forall|k: int| 0 <= k < i + 1 implies (#[trigger] endpoint_entries(
                    self.available,
                )[k]).0 == start[k].0 && endpoint_entries(self.available)[k].1@ == target[k] by {
                    if k < i {
                        assert(endpoint_entries(self.available)[k] == before[k]);
                    }
                }
                assert forall|k: int| i + 1 <= k < n implies #[trigger] endpoint_entries(
                    self.available,
                )[k] == start[k] by {
                    assert(endpoint_entries(self.available)[k] == before[k]);
                }
            }
            i += 1;
        }
        proof {
            assert(target.take(n as int) =~= target);
            assert(views(start).take(n as int) =~= views(start));
            assert(views(endpoint_entries(self.available)) =~= target);
            lemma_same_peers(start, endpoint_entries(self.available), old(self)@.retired);
        }
        ConnectionPoll { summary, cursor: 0, accepted: false, refused: false, awaiting: false }
    }

    /// Says which peer to dial next, if the top-up goes on, and marks in
    /// `poll` that the outcome of that dial is awaited. Returns `None` when
    /// the top-up is over; `poll` is then left as it was.
    pub fn next_dial(&self, poll: &mut ConnectionPoll) -> (peer: Option<PeerAddr>)
        ensures
            *final(poll) == self@.dialing(*old(poll)),
            match self@.dial_target(*old(poll)) {
                None => peer is None,
                Some(t) => peer == Some(self@.available[t].peer_addr) && self@.awaits_dial(*final(poll)),
            },
            old(poll).consistent() ==> final(poll).consistent(),
    {
        let n: usize = endpoints_len(&self.available);
        if n == 0 || poll.summary.connected.saturating_add(poll.summary.pending)
            >= self.minimum_connections {
            return None;
        }
        if poll.cursor >= n {
            if !poll.accepted {
                return None;
            }
            poll.cursor = 0;
            poll.accepted = false;
        }
        poll.awaiting = true;
        Some(endpoint_at(&self.available, poll.cursor).peer_addr())
    }

    /// Records the outcome of the first poll of the dial that `poll` awaits:
    /// the dial, known as `conn`, stays in flight on its endpoint, or is
    /// its newest warm connection, or is forgotten. Without a dial awaited
    /// nothing changes.
    pub fn dialed(&mut self, poll: &mut ConnectionPoll, conn: u64, outcome: DialOutcome)
        requires
            old(self).wf(),
        ensures
            final(self).wf(),
            final(self)@ == old(self)@.dialed(*old(poll), conn, outcome),
            *final(poll) == if old(self)@.awaits_dial(*old(poll)) {
                old(poll).after_dial(outcome)
            } else {
                *old(poll)
            },
            old(poll).consistent() ==> final(poll).consistent(),
            old(self)@.tracked_by(*old(poll)) ==> final(self)@.tracked_by(*final(poll)),
    {
        let n: usize = endpoints_len(&self.available);
        if !poll.awaiting || poll.cursor >= n {
            return ;
        }
        let ghost before = endpoint_entries(self.available);
        let ep = endpoint_at_mut(&mut self.available, poll.cursor);
        ep.dialed(conn, outcome);
        proof {
            lemma_replaced(
                before,
                endpoint_entries(self.available),
                poll.cursor as int,
                endpoint_entries(self.available)[poll.cursor as int].1,
                self@.retired,
            );
            lemma_totals_update(
                views(before),
                poll.cursor as int,
                views(before)[poll.cursor as int].dialed(conn, outcome),
            );
        }
        poll.summary.count(outcome);
        poll.cursor = poll.cursor + 1;
        match outcome {
            DialOutcome::Failed => {
                poll.refused = true;
            },
            _ => {
                poll.accepted = true;
            },
        }
        poll.awaiting = false;
    }

    /// Ends a poll of the connections: every available endpoint pairs its
    /// warm connections with its waiting requests, oldest with oldest, and
    /// drops the requests in `cancelled`. Returns the hand-offs decided on
    /// and the counts of the poll.
    pub fn finish_poll(&mut self, poll: &ConnectionPoll, cancelled: &Vec<u64>) -> (done: (
        Vec<Handoff>,
        ConnectionPollSummary,
    ))
        requires
            old(self).wf(),
        ensures
            final(self).wf(),
            final(self)@ == old(self)@.drained(cancelled@),
            done.0@ == drain_handoffs(old(self)@.available, cancelled@),
            done.1 == (ConnectionPollSummary { dispatched: done.0@.len() as usize, ..poll.summary }),
    {
        let mut handoffs: Vec<Handoff> = Vec::new();
        let ghost start = endpoint_entries(self.available);
        let n: usize = endpoints_len(&self.available);
        let mut i: usize = 0;
        proof {
            assert(views(start).take(0) =~= Seq::empty());
        }
        while i < n
            invariant
                i <= n,
                n == start.len(),
                endpoint_entries(self.available).len() == n,
                forall|k: int|
                    0 <= k < i ==> (#[trigger] endpoint_entries(self.available)[k]).0 == start[k].0
                        && endpoint_entries(self.available)[k].1@ == start[k].1@.drained(cancelled@),
                forall|k: int| i <= k < n ==> #[trigger] endpoint_entries(self.available)[k] == start[k],
                endpoint_entries(self.retired) == endpoint_entries(old(self).retired),
                self.dst_name == old(self).dst_name,
                self.minimum_connections == old(self).minimum_connections,
                handoffs@ == drain_handoffs(views(start).take(i as int), cancelled@),
            decreases n - i,
        {
            let ghost before = endpoint_entries(self.available);
            let ep = endpoint_at_mut(&mut self.available, i);
            ep.drain(cancelled, &mut handoffs);
            proof {
                assert(views(start).take(i as int + 1).drop_last() =~= views(start).take(i as int));
                assert(views(start)[i as int] == start[i as int].1@);
                assert forall|k: int| 0 <= k < i + 1 implies (#[trigger] endpoint_entries(
                    self.available,
                )[k]).0 == start[k].0 && endpoint_entries(self.available)[k].1@ == start[k].1@.drained(
                    cancelled@,
                ) by {
                    if k < i {
                        assert(endpoint_entries(self.available)[k] == before[k]);
                    }
                }
                assert forall|k: int| i + 1 <= k < n implies #[trigger] endpoint_entries(
                    self.available,
                )[k] == start[k] by {
                    assert(endpoint_entries(self.available)[k] == before[k]);
                }
            }
            i += 1;
        }
        proof {
            assert(views(start).take(n as int) =~= views(start));
            assert(views(endpoint_entries(self.available)) =~= old(self)@.drained(cancelled@).available);
            assert forall|k: int|
                0 <= k < n implies
                (#[trigger] endpoint_entries(self.available)[k]).0
                == start[k].0 && endpoint_entries(self.available)[k].1@.peer_addr
                == start[k].1@.peer_addr by {
                lemma_drained_keeps(start[k].1@, cancelled@);
            }
            lemma_same_peers(start, endpoint_entries(self.available), old(self)@.retired);
        }
        let summary = ConnectionPollSummary { dispatched: handoffs.len(), ..poll.summary };
        (handoffs, summary)
    }

    /// Takes the outcome of connection `conn`: the endpoint that has it in
    /// use is released from it, and its load goes down by one. Returns
    /// whether an endpoint awaited this outcome.
    pub fn release(&mut self, conn: u64) -> (known: bool)
        requires
            old(self).wf(),
        ensures
            final(self).wf(),
            final(self)@ == old(self)@.released(conn),
            known == (first_awaiting(old(self)@.available, conn) is Some || first_awaiting(
                old(self)@.retired,
                conn,
            ) is Some),
    {
        let ghost retired = self@.retired;
        if release_in(&mut self.available, conn, Ghost(retired)) {
            return true;
        }
        proof {
            assert(views(endpoint_entries(self.available)) =~= old(self)@.available);
            assert forall|i: int, j: int|
                0 <= i < j < (self@.retired + self@.available).len() implies (#[trigger] (self@.retired
                + self@.available)[i]).peer_addr != (#[trigger] (self@.retired
                + self@.available)[j]).peer_addr by {
                lemma_split_distinct(self@.available, self@.retired);
                lemma_concat_distinct(self@.retired, self@.available);
            }
        }
        let ghost available = self@.available;
        let known = release_in(&mut self.retired, conn, Ghost(available));
        proof {
            lemma_split_distinct(self@.retired, self@.available);
            lemma_concat_distinct(self@.available, self@.retired);
            if !known {
                assert(views(endpoint_entries(self.retired)) =~= old(self)@.retired);
            }
        }
        known
    }

    /// The name of the destination.
    pub fn dst_name(&self) -> (name: &String)
        ensures
            name@ == self@.dst_name,
    {
        &self.dst_name
    }

    /// The number of connections to keep warm or in the making.
    pub fn minimum_connections(&self) -> (n: usize)
        ensures
            n == self@.minimum_connections,
    {
        self.minimum_connections
    }

    /// The number of available endpoints.
    pub fn available_len(&self) -> (n: usize)
        ensures
            n == self@.available.len(),
    {
        endpoints_len(&self.available)
    }

    /// The number of retired endpoints.
    pub fn retired_len(&self) -> (n: usize)
        ensures
            n == self@.retired.len(),
    {
        endpoints_len(&self.retired)
    }

    /// The available endpoint at position `i` of the table.
    pub fn available(&self, i: usize) -> (ep: Option<&Endpoint>)
        ensures
            match ep {
                Some(e) => i < self@.available.len() && e@ == self@.available[i as int],
                None => i >= self@.available.len(),
            },
    {
        if i < endpoints_len(&self.available) {
            Some(endpoint_at(&self.available, i))
        } else {
            None
        }
    }

    /// The retired endpoint at position `i` of the table.
    pub fn retired(&self, i: usize) -> (ep: Option<&Endpoint>)
        ensures
            match ep {
                Some(e) => i < self@.retired.len() && e@ == self@.retired[i as int],
                None => i >= self@.retired.len(),
            },
    {
        if i < endpoints_len(&self.retired) {
            Some(endpoint_at(&self.retired, i))
        } else {
            None
        }
    }

    /// The position of the peer `addr` among the available endpoints.
    pub fn find_available(&self, addr: PeerAddr) -> (at: Option<usize>)
        requires
            self.wf(),
        ensures
            match at {
                Some(i) => i < self@.available.len() && self@.available[i as int].peer_addr == addr,
                None => !has_addr(self@.available, addr),
            },
    {
        proof {
            lemma_keyed(endpoint_entries(self.available), addr);
        }
        endpoints_index_of(&self.available, addr.key())
    }

    /// The position of the peer `addr` among the retired endpoints.
    pub fn find_retired(&self, addr: PeerAddr) -> (at: Option<usize>)
        requires
            self.wf(),
        ensures
            match at {
                Some(i) => i < self@.retired.len() && self@.retired[i as int].peer_addr == addr,
                None => !has_addr(self@.retired, addr),
            },
    {
        proof {
            lemma_keyed(endpoint_entries(self.retired), addr);
        }
        endpoints_index_of(&self.retired, addr.key())
    }

    /// The dials in flight on the available endpoints, endpoint after
    /// endpoint: the dials whose state the next poll asks for.
    pub fn in_flight(&self) -> (ids: Vec<u64>)
        ensures
            ids@ == in_flight(self@.available),
    {
        let mut ids: Vec<u64> = Vec::new();
        let n: usize = endpoints_len(&self.available);
        let mut i: usize = 0;
        proof {
            assert(self@.available.take(0) =~= Seq::empty());
        }
        while i < n
            invariant
                i <= n,
                n == self@.available.len(),
                ids@ == in_flight(self@.available.take(i as int)),
            decreases n - i,
        {
            let mut more = endpoint_at(&self.available, i).connecting();
            proof {
                assert(self@.available.take(i as int + 1).drop_last() =~= self@.available.take(i as int));
            }
            ids.append(&mut more);
            i += 1;
        }
        proof {
            assert(self@.available.take(n as int) =~= self@.available);
        }
        ids
    }

    /// Takes the result of a service-discovery lookup. A failed lookup
    /// changes nothing. A successful one carries the full set of peers:
    /// endpoints are salvaged, kept, retired, dropped and created as
    /// [`ManagerView::resolved`] says.
    pub fn update_resolved(&mut self, resolved: Result<Vec<DstAddr>, ResolveError>)
        requires
            old(self).wf(),
        ensures
            final(self).wf(),
            match resolved {
                Ok(dsts) => final(self)@ == old(self)@.resolved(dsts@),
                Err(_) => final(self)@ == old(self)@,
            },
    {
        if let Ok(ref resolved) = resolved {
            let ghost dsts = resolved@;
            let ghost name = self.dst_name@;
            let ghost a0 = self@.available;
            let ghost r0 = self@.retired;
            let mut found = discover(&self.dst_name, resolved);

            // A retired endpoint comes back, stays, or goes.
            sweep_retired(&mut self.available, &mut self.retired, &found, Ghost(name), Ghost(dsts));
            proof {
                let a1 = a0 + r0.filter(is_named(dsts));
                lemma_split_distinct(a0, r0);
                lemma_filter_distinct(r0, is_named(dsts));
                assert forall|a: PeerAddr| has_addr(a0, a) implies !has_addr(
                    r0.filter(is_named(dsts)),
                    a,
                ) by {
                    if has_addr(r0.filter(is_named(dsts)), a) {
                        lemma_filter_has_addr(r0, is_named(dsts), a);
                    }
                }
                lemma_concat_distinct(a0, r0.filter(is_named(dsts)));
                assert forall|a: PeerAddr| has_addr(a1, a) && !named(dsts, a) implies !has_addr(
                    r0.filter(is_retiring(dsts)),
                    a,
                ) by {
                    lemma_has_addr_concat(a0, r0.filter(is_named(dsts)), a);
                    if has_addr(r0.filter(is_named(dsts)), a) {
                        lemma_filter_has_addr(r0, is_named(dsts), a);
                    }
                    if has_addr(r0.filter(is_retiring(dsts)), a) {
                        lemma_filter_has_addr(r0, is_retiring(dsts), a);
                    }
                }
            }

            // An available endpoint stays, is retired, or goes.
            sweep_available(&mut self.available, &mut self.retired, &found, Ghost(name), Ghost(dsts));
            proof {
                let rn = r0.filter(is_named(dsts));
                Seq::filter_distributes_over_add(a0, rn, is_named(dsts));
                Seq::filter_distributes_over_add(a0, rn, is_retiring(dsts));
                lemma_filter_idempotent(r0, is_named(dsts));
                lemma_filter_contrary(r0, is_named(dsts), is_retiring(dsts));
                assert(a0.filter(is_retiring(dsts)) + Seq::<EndpointView>::empty() =~= a0.filter(
                    is_retiring(dsts),
                ));
                lemma_resolved_wf(old(self)@, dsts);
            }

            // New peers get endpoints, known ones their new weight.
            apply(&mut self.available, &mut found, Ghost(name), Ghost(mapping(dsts)));
        }
    }
}

/// A manager at work: it is woken with what happened outside, and answers
/// with what is to be done.
pub struct Managing {
    pub manager: Manager,
    /// Whether the service-discovery stream has ended.
    pub lost: bool,
}

impl Managing {
    /// The manager at work is well formed.
    pub open spec fn wf(&self) -> bool {
        self.manager.wf()
    }

    /// One wake of the manager. It gives out the requests of `intake`,
    /// takes what the poll of the service-discovery stream returned, and
    /// begins a poll of the connections, whose top-up and end are the
    /// caller's to drive.
    ///
    /// `cancelled` holds the requests whose owners have given up; `ready`
    /// and `failed` hold the dials that have ended. Of these reports only
    /// those on dials in flight on an endpoint that is available after the
    /// update are looked at.
    ///
    /// The hand-offs decided on are returned in any case. Once the stream
    /// has ended the answer is `ResolverLost`, and from then on nothing is
    /// consumed or changed.
    pub fn poll(
        &mut self,
        intake: &mut Vec<u64>,
        cancelled: &Vec<u64>,
        resolution: Resolution,
        ready: &Vec<u64>,
        failed: &Vec<u64>,
    ) -> (woken: (Vec<Handoff>, Result<ConnectionPoll, Error>))
        requires
            old(self).wf(),
        ensures
            final(self).wf(),
            old(self).lost ==> {
                &&& final(self).lost
                &&& final(self).manager@ == old(self).manager@
                &&& final(intake)@ == old(intake)@
                &&& woken.0@ == Seq::<Handoff>::empty()
                &&& woken.1 == Err::<ConnectionPoll, Error>(Error::ResolverLost)
            },
            !old(self).lost ==> exists|mid: ManagerView| #[trigger]
                old(self).manager@.wakes(
                    old(intake)@,
                    cancelled@,
                    resolution,
                    ready@,
                    failed@,
                    mid,
                    woken.0@,
                    final(self).manager@,
                    final(self).lost,
                    woken.1,
                ),
            !old(self).lost ==> final(intake)@ == if old(self).manager@.available.len() == 0 {
                old(intake)@
            } else {
                Seq::empty()
            },
            woken.1 matches Ok(poll) ==> final(self).manager@.tracked_by(poll) && poll.consistent(),
    {
        if self.lost {
            return (Vec::new(), Err(Error::ResolverLost));
        }
        // The requests that have arrived come first.
        let handoffs = self.manager.dispatch(intake, cancelled);
        let ghost mid = self.manager@;

        // Then the news from service discovery.
        match resolution {
            Resolution::Failed => {},
            Resolution::NotReady => {},
            Resolution::Ended => {
                self.lost = true;
                let woken: (Vec<Handoff>, Result<ConnectionPoll, Error>) = (
                    handoffs,
                    Err(Error::ResolverLost),
                );
                proof {
                    assert(old(self).manager@.wakes(
                        old(intake)@,
                        cancelled@,
                        resolution,
                        ready@,
                        failed@,
                        mid,
                        woken.0@,
                        self.manager@,
                        self.lost,
                        woken.1,
                    ));
                }
                return woken;
            },
            Resolution::Update(resolved) => {
                self.manager.update_resolved(resolved);
            },
        }
        let poll = self.manager.poll_connecting(ready, failed);
        let woken: (Vec<Handoff>, Result<ConnectionPoll, Error>) = (handoffs, Ok(poll));
        proof {
            assert(old(self).manager@.wakes(
                old(intake)@,
                cancelled@,
                resolution,
                ready@,
                failed@,
                mid,
                woken.0@,
                self.manager@,
                self.lost,
                woken.1,
            ));
        }
        woken
    }
}

} // verus!
