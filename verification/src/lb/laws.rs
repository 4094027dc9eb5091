//! What holds of the balancer whatever happens to it: the laws of the
//! endpoint table, of the top-up and of the hand-offs.
use super::choice::are_candidates;
use super::DstAddr;
use super::endpoint::DialOutcome;
use super::endpoint::EndpointView;
use super::endpoint::is_live;
use super::endpoint::lemma_awaits;
use super::endpoint::lemma_drained_keeps;
use super::endpoint::served;
use super::lemmas::lemma_addr_index;
use super::lemmas::lemma_dropped;
use super::lemmas::lemma_filter_all;
use super::lemmas::lemma_filter_contrary;
use super::lemmas::lemma_filter_member;
use super::lemmas::lemma_filter_no_duplicates;
use super::lemmas::lemma_first_awaiting;
use super::lemmas::lemma_mapping;
use super::lemmas::lemma_no_duplicates_split;
use super::lemmas::lemma_resolved_wf;
use super::lemmas::lemma_split_distinct;
use super::lemmas::lemma_upsert_all_at;
use super::load::lemma_load_order;
use super::load::Load;
use super::model::addr_index;
use super::model::distinct_addrs;
use super::model::drain_handoffs;
use super::model::has_addr;
use super::model::is_named;
use super::model::is_retiring;
use super::model::ManagerView;
use super::model::mapping;
use super::model::named;
use super::model::named_index;
use super::model::peers;
use super::model::waiting;
use super::model::warm;
use super::PeerAddr;
use super::poll::ConnectionPoll;
use super::poll::lemma_totals_update;
use super::poll::total_connected;
use super::poll::total_pending;
use vstd::prelude::*;

verus! {

/// The weight that the update `dsts` gives the peer `a`: that of the last
/// entry that names it.
pub open spec fn weight_given(dsts: Seq<DstAddr>, a: PeerAddr) -> u32 {
    mapping(dsts)[named_index(mapping(dsts), a)].weight
}

/// Partition: no peer has an endpoint both among the available and among
/// the retired, and none has two in one partition.
pub proof fn law_partition(v: ManagerView, a: PeerAddr)
    requires
        v.wf(),
    ensures
        !(has_addr(v.available, a) && has_addr(v.retired, a)),
        distinct_addrs(v.available),
        distinct_addrs(v.retired),
{
    lemma_split_distinct(v.available, v.retired);
}

/// Partition: an update leaves the table a partition.
pub proof fn law_update_keeps_partition(v: ManagerView, dsts: Seq<DstAddr>)
    requires
        v.wf(),
    ensures
        v.resolved(dsts).wf(),
{
    lemma_resolved_wf(v, dsts);
}

/// Partition: two tables with the same peers in the same places are
/// partitions together.
pub proof fn law_same_peers_same_partition(v: ManagerView, w: ManagerView)
    requires
        v.wf(),
        peers(w.available) == peers(v.available),
        peers(w.retired) == peers(v.retired),
    ensures
        w.wf(),
{
    let a = v.available + v.retired;
    let b = w.available + w.retired;
    assert(peers(w.available).len() == w.available.len());
    assert(peers(w.retired).len() == w.retired.len());
    assert forall|i: int, j: int| 0 <= i < j < b.len() implies (#[trigger] b[i]).peer_addr != (
    #[trigger] b[j]).peer_addr by {
        assert forall|k: int| 0 <= k < b.len() implies b[k].peer_addr == a[k].peer_addr by {
            if k < w.available.len() {
                assert(b[k] == w.available[k] && a[k] == v.available[k]);
                assert(peers(w.available)[k] == w.available[k].peer_addr);
                assert(peers(v.available)[k] == v.available[k].peer_addr);
            } else {
                let r = k - w.available.len();
                assert(b[k] == w.retired[r] && a[k] == v.retired[r]);
                assert(peers(w.retired)[r] == w.retired[r].peer_addr);
                assert(peers(v.retired)[r] == v.retired[r].peer_addr);
            }
        }
        assert(a[i].peer_addr != a[j].peer_addr);
    }
}

/// Only updates move endpoints: giving out requests leaves every endpoint
/// in its place and the retired ones as they are, so the table stays a
/// partition.
pub proof fn law_dispatch_keeps_table(
    v: ManagerView,
    intake: Seq<u64>,
    cancelled: Seq<u64>,
    picks: Seq<int>,
)
    requires
        v.are_picks(intake, cancelled, picks),
    ensures
        peers(v.dispatch_run(intake, cancelled, picks).available) == peers(v.available),
        v.dispatch_run(intake, cancelled, picks).retired == v.retired,
        v.wf() ==> v.dispatch_run(intake, cancelled, picks).wf(),
    decreases intake.len(),
{
    let after = v.dispatch_run(intake, cancelled, picks);
    if intake.len() > 0 {
        let rest = intake.drop_last();
        let earlier = picks.drop_last();
        assert forall|k: int| 0 <= k < rest.len() implies {
            let at = v.dispatch_run(rest.take(k), cancelled, earlier.take(k));
            0 <= #[trigger] earlier[k] < at.available.len() && at.may_select(earlier[k])
        } by {
            assert(rest.take(k) =~= intake.take(k));
            assert(earlier.take(k) =~= picks.take(k));
            assert(earlier[k] == picks[k]);
        }
        law_dispatch_keeps_table(v, rest, cancelled, earlier);
        let before = v.dispatch_run(rest, cancelled, earlier);
        assert(intake.take(intake.len() - 1) =~= rest);
        assert(picks.take(intake.len() - 1) =~= earlier);
        assert(0 <= picks[intake.len() - 1] < before.available.len());
        assert(peers(after.available) =~= peers(before.available));
    }
    if v.wf() {
        law_same_peers_same_partition(v, after);
    }
}

/// Only updates move endpoints: a poll of the connections, from the
/// reports on the dials through the top-up to the pairing at its end,
/// leaves every endpoint in its place and the retired ones as they are, so
/// the table stays a partition. No endpoint is retired or destroyed
/// because a dial failed.
pub proof fn law_poll_keeps_table(
    v: ManagerView,
    ready: Seq<u64>,
    failed: Seq<u64>,
    p: ConnectionPoll,
    conn: u64,
    outcome: DialOutcome,
    cancelled: Seq<u64>,
)
    ensures
        peers(v.advanced(ready, failed).available) == peers(v.available),
        v.advanced(ready, failed).retired == v.retired,
        peers(v.dialed(p, conn, outcome).available) == peers(v.available),
        v.dialed(p, conn, outcome).retired == v.retired,
        peers(v.drained(cancelled).available) == peers(v.available),
        v.drained(cancelled).retired == v.retired,
        v.wf() ==> v.advanced(ready, failed).wf() && v.dialed(p, conn, outcome).wf() && v.drained(
            cancelled,
        ).wf(),
{
    assert(peers(v.advanced(ready, failed).available) =~= peers(v.available));
    assert(peers(v.dialed(p, conn, outcome).available) =~= peers(v.available));
    assert(peers(v.drained(cancelled).available) =~= peers(v.available)) by {
        assert forall|k: int| 0 <= k < v.available.len() implies v.available[k].drained(
            cancelled,
        ).peer_addr == v.available[k].peer_addr by {
            lemma_drained_keeps(v.available[k], cancelled);
        }
    }
    if v.wf() {
        law_same_peers_same_partition(v, v.advanced(ready, failed));
        law_same_peers_same_partition(v, v.dialed(p, conn, outcome));
        law_same_peers_same_partition(v, v.drained(cancelled));
    }
}

/// Only updates move endpoints: the outcome of a connection leaves every
/// endpoint in its place, so the table stays a partition.
pub proof fn law_release_keeps_table(v: ManagerView, conn: u64)
    ensures
        peers(v.released(conn).available) == peers(v.available),
        peers(v.released(conn).retired) == peers(v.retired),
        v.wf() ==> v.released(conn).wf(),
{
    lemma_first_awaiting(v.available, conn);
    lemma_first_awaiting(v.retired, conn);
    assert(peers(v.released(conn).available) =~= peers(v.available));
    assert(peers(v.released(conn).retired) =~= peers(v.retired));
    if v.wf() {
        law_same_peers_same_partition(v, v.released(conn));
    }
}

/// Salvage: a retired endpoint whose peer an update names is available
/// after it, and it is the same record: its dials, its warm connections,
/// its waiting requests, its connections in use and its load are as they
/// were. Only the weight is that of the update.
pub proof fn law_salvage(v: ManagerView, i: int, dsts: Seq<DstAddr>)
    requires
        v.wf(),
        0 <= i < v.retired.len(),
        named(dsts, v.retired[i].peer_addr),
    ensures
        has_addr(v.resolved(dsts).available, v.retired[i].peer_addr),
        !has_addr(v.resolved(dsts).retired, v.retired[i].peer_addr),
        v.resolved(dsts).available[addr_index(v.resolved(dsts).available, v.retired[i].peer_addr)]
            == v.retired[i].with_weight(weight_given(dsts, v.retired[i].peer_addr)),
{
    let a = v.retired[i].peer_addr;
    let an = v.available.filter(is_named(dsts));
    let rn = v.retired.filter(is_named(dsts));
    let base = an + rn;
    let after = v.resolved(dsts);
    lemma_resolved_wf(v, dsts);
    lemma_mapping(dsts);
    lemma_split_distinct(v.available, v.retired);
    v.retired.lemma_filter_contains(is_named(dsts), i);
    let k = choose|k: int| 0 <= k < rn.len() && rn[k] == v.retired[i];
    assert(base[an.len() + k] == v.retired[i]);
    lemma_upsert_all_at(base, v.dst_name, mapping(dsts), an.len() + k);
    lemma_split_distinct(after.available, after.retired);
    assert(after.available[an.len() + k].peer_addr == a);
    lemma_addr_index(after.available, an.len() + k);
}

/// Retirement: an available endpoint that an update drops while it has
/// work left is retired by it, unchanged.
pub proof fn law_retirement(v: ManagerView, i: int, dsts: Seq<DstAddr>)
    requires
        v.wf(),
        0 <= i < v.available.len(),
        !named(dsts, v.available[i].peer_addr),
        !v.available[i].is_idle(),
    ensures
        !has_addr(v.resolved(dsts).available, v.available[i].peer_addr),
        has_addr(v.resolved(dsts).retired, v.available[i].peer_addr),
        v.resolved(dsts).retired[addr_index(v.resolved(dsts).retired, v.available[i].peer_addr)]
            == v.available[i],
{
    let a = v.available[i].peer_addr;
    let rr = v.retired.filter(is_retiring(dsts));
    let ar = v.available.filter(is_retiring(dsts));
    let after = v.resolved(dsts);
    lemma_resolved_wf(v, dsts);
    v.available.lemma_filter_contains(is_retiring(dsts), i);
    let k = choose|k: int| 0 <= k < ar.len() && ar[k] == v.available[i];
    assert(after.retired[rr.len() + k] == v.available[i]);
    lemma_split_distinct(after.available, after.retired);
    lemma_addr_index(after.retired, rr.len() + k);
    assert(has_addr(after.retired, a));
}

/// A retired endpoint that an update does not name either, and that has
/// work left, stays retired, unchanged.
pub proof fn law_retired_stays(v: ManagerView, i: int, dsts: Seq<DstAddr>)
    requires
        v.wf(),
        0 <= i < v.retired.len(),
        !named(dsts, v.retired[i].peer_addr),
        !v.retired[i].is_idle(),
    ensures
        !has_addr(v.resolved(dsts).available, v.retired[i].peer_addr),
        has_addr(v.resolved(dsts).retired, v.retired[i].peer_addr),
        v.resolved(dsts).retired[addr_index(v.resolved(dsts).retired, v.retired[i].peer_addr)]
            == v.retired[i],
{
    let a = v.retired[i].peer_addr;
    let rr = v.retired.filter(is_retiring(dsts));
    let after = v.resolved(dsts);
    lemma_resolved_wf(v, dsts);
    v.retired.lemma_filter_contains(is_retiring(dsts), i);
    let k = choose|k: int| 0 <= k < rr.len() && rr[k] == v.retired[i];
    assert(after.retired[k] == v.retired[i]);
    lemma_split_distinct(after.available, after.retired);
    lemma_addr_index(after.retired, k);
    assert(has_addr(after.retired, a));
}

/// Retirement drain: a retired endpoint is destroyed by the first update
/// that finds it both absent and idle.
pub proof fn law_retirement_drain(v: ManagerView, i: int, dsts: Seq<DstAddr>)
    requires
        v.wf(),
        0 <= i < v.retired.len(),
        !named(dsts, v.retired[i].peer_addr),
        v.retired[i].is_idle(),
    ensures
        !has_addr(v.resolved(dsts).available, v.retired[i].peer_addr),
        !has_addr(v.resolved(dsts).retired, v.retired[i].peer_addr),
{
    let a = v.retired[i].peer_addr;
    lemma_split_distinct(v.available, v.retired);
    assert(has_addr(v.retired, a));
    assert forall|j: int|
        0 <= j < v.retired.len() && (#[trigger] v.retired[j]).peer_addr == a implies
        v.retired[j].is_idle() by {
        if j < i {
            assert(v.retired[j].peer_addr != v.retired[i].peer_addr);
        } else if i < j {
            assert(v.retired[i].peer_addr != v.retired[j].peer_addr);
        }
    }
    assert forall|j: int|
        0 <= j < v.available.len() && (#[trigger] v.available[j]).peer_addr == a implies
        v.available[j].is_idle() by {
        assert(has_addr(v.available, a));
    }
    lemma_dropped(v, dsts, a);
}

/// An available endpoint that an update drops while it is idle is
/// destroyed by it.
pub proof fn law_idle_dropped(v: ManagerView, i: int, dsts: Seq<DstAddr>)
    requires
        v.wf(),
        0 <= i < v.available.len(),
        !named(dsts, v.available[i].peer_addr),
        v.available[i].is_idle(),
    ensures
        !has_addr(v.resolved(dsts).available, v.available[i].peer_addr),
        !has_addr(v.resolved(dsts).retired, v.available[i].peer_addr),
{
    let a = v.available[i].peer_addr;
    lemma_split_distinct(v.available, v.retired);
    assert(has_addr(v.available, a));
    assert forall|j: int|
        0 <= j < v.available.len() && (#[trigger] v.available[j]).peer_addr == a implies
        v.available[j].is_idle() by {
        if j < i {
            assert(v.available[j].peer_addr != v.available[i].peer_addr);
        } else if i < j {
            assert(v.available[i].peer_addr != v.available[j].peer_addr);
        }
    }
    assert forall|j: int|
        0 <= j < v.retired.len() && (#[trigger] v.retired[j]).peer_addr == a implies
        v.retired[j].is_idle() by {
        assert(has_addr(v.retired, a));
    }
    lemma_dropped(v, dsts, a);
}

/// Salvage, from drop to return: an available endpoint that one update
/// drops while it has work left, and whose peer the next update names
/// again, is available after both, and it is the record it was, with the
/// weight of the second update. It is not a new one.
pub proof fn law_dropped_and_salvaged(v: ManagerView, i: int, drop: Seq<DstAddr>, back: Seq<DstAddr>)
    requires
        v.wf(),
        0 <= i < v.available.len(),
        !named(drop, v.available[i].peer_addr),
        !v.available[i].is_idle(),
        named(back, v.available[i].peer_addr),
    ensures
        has_addr(v.resolved(drop).resolved(back).available, v.available[i].peer_addr),
        v.resolved(drop).resolved(back).available[addr_index(
            v.resolved(drop).resolved(back).available,
            v.available[i].peer_addr,
        )] == v.available[i].with_weight(weight_given(back, v.available[i].peer_addr)),
{
    let a = v.available[i].peer_addr;
    let mid = v.resolved(drop);
    law_retirement(v, i, drop);
    lemma_resolved_wf(v, drop);
    let k = addr_index(mid.retired, a);
    assert(0 <= k < mid.retired.len() && mid.retired[k].peer_addr == a);
    law_salvage(mid, k, back);
}

/// Top-up: a dial that is awaited and does not fail adds one to the
/// connections warm or in the making, and a failed one leaves them as
/// they are.
pub proof fn law_dial_counts(v: ManagerView, p: ConnectionPoll, conn: u64, outcome: DialOutcome)
    requires
        v.awaits_dial(p),
    ensures
        total_connected(v.dialed(p, conn, outcome).available) + total_pending(
            v.dialed(p, conn, outcome).available,
        ) == total_connected(v.available) + total_pending(v.available) + if outcome
            == DialOutcome::Failed {
            0int
        } else {
            1int
        },
{
    lemma_totals_update(
        v.available,
        p.cursor as int,
        v.available[p.cursor as int].dialed(conn, outcome),
    );
}

/// Top-up floor: when the top-up of a poll is over, no dial of it has
/// failed and an endpoint is available, the connections warm or in the
/// making are at least the minimum.
pub proof fn law_top_up_floor(v: ManagerView, p: ConnectionPoll)
    requires
        v.available.len() > 0,
        v.tracked_by(p),
        p.consistent(),
        !p.refused,
        v.dial_target(p) is None,
    ensures
        total_connected(v.available) + total_pending(v.available) >= v.minimum_connections,
{
}

/// Load: the outcome of a connection undoes what its hand-off did to the
/// load and to the connections in use, where the load is unmeasured or
/// below its ceiling and the connection was not in use before.
pub proof fn law_release_undoes_handoff(e: EndpointView, conn: u64)
    requires
        !e.completing.contains(conn),
        !(e.load matches Load::Measured(n) && n == u64::MAX),
    ensures
        e.with_ctx(conn).released(conn).load == e.load,
        e.with_ctx(conn).released(conn).completing == e.completing,
        e.with_ctx(conn).load.le(e.load) ==> e.with_ctx(conn).load == e.load,
        e.load.le(e.with_ctx(conn).load),
{
    let used = e.with_ctx(conn);
    assert(used.completing[e.completing.len() as int] == conn);
    lemma_awaits(used, conn);
    let at = used.awaits(conn)->0;
    if at < e.completing.len() {
        assert(e.completing[at] == conn);
    }
    assert(used.completing.remove(at) =~= e.completing);
}

/// At-most-once hand-off, for a request that arrives: it takes the oldest
/// warm connection or none. If it takes one, it does not wait as well and
/// the connection is warm no longer but in use; if it takes none, every
/// warm connection stays.
pub proof fn law_dispatch_hands_off_at_most_once(e: EndpointView, dispatchee: u64, live: bool)
    ensures
        match e.handoff(dispatchee, live) {
            Some(h) => {
                &&& h.dispatchee == dispatchee
                &&& h.conn == e.connected[0]
                &&& e.dispatched(dispatchee, live).connected == e.connected.drop_first()
                &&& e.dispatched(dispatchee, live).dispatchees == e.dispatchees
                &&& e.dispatched(dispatchee, live).completing == e.completing.push(h.conn)
                &&& e.connected.no_duplicates() ==> !e.dispatched(dispatchee, live).connected.contains(
                    h.conn,
                )
            },
            None => {
                &&& e.dispatched(dispatchee, live).connected == e.connected
                &&& e.dispatched(dispatchee, live).completing == e.completing
            },
        },
{
    if e.handoff(dispatchee, live) is Some && e.connected.no_duplicates() {
        let rest = e.connected.drop_first();
        if rest.contains(e.connected[0]) {
            let k = choose|k: int| 0 <= k < rest.len() && rest[k] == e.connected[0];
            assert(e.connected[k + 1] == e.connected[0]);
        }
    }
}

/// First in, first out: a drain hands the oldest warm connections, in
/// their order, to the oldest waiting requests that are still wanted, in
/// theirs. What it takes leaves the queues from the front, and the
/// connections handed out are in use from then on.
pub proof fn law_drain_fifo(e: EndpointView, cancelled: Seq<u64>)
    ensures
        ({
            let handoffs = e.drain_handoffs(cancelled);
            let after = e.drained(cancelled);
            let taken = e.drain_taken(cancelled) as int;
            &&& handoffs.len() <= e.connected.len()
            &&& handoffs.len() <= taken <= e.dispatchees.len()
            &&& forall|i: int|
                0 <= i < handoffs.len() ==> (#[trigger] handoffs[i]).conn == e.connected[i]
                    && handoffs[i].peer_addr == e.peer_addr
            &&& served(handoffs) == e.dispatchees.take(taken).filter(is_live(cancelled))
            &&& after.connected == e.connected.skip(handoffs.len() as int)
            &&& after.dispatchees == e.dispatchees.skip(taken)
            &&& after.completing == e.completing + e.connected.take(handoffs.len() as int)
        }),
    decreases e.dispatchees.len(),
{
    let handoffs = e.drain_handoffs(cancelled);
    let after = e.drained(cancelled);
    let taken = e.drain_taken(cancelled) as int;
    if e.connected.len() == 0 || e.dispatchees.len() == 0 {
        assert(e.dispatchees.take(0).filter(is_live(cancelled)) =~= Seq::empty()) by {
            reveal(Seq::filter);
        }
        assert(served(handoffs) =~= Seq::empty());
        assert(e.connected.skip(0) =~= e.connected);
        assert(e.dispatchees.skip(0) =~= e.dispatchees);
        assert(e.completing + e.connected.take(0) =~= e.completing);
    } else {
        let first = e.dispatchees[0];
        let waiting = e.dispatchees.drop_first();
        let next = if cancelled.contains(first) {
            EndpointView { dispatchees: waiting, ..e }
        } else {
            EndpointView { dispatchees: waiting, ..e.after_handoff() }
        };
        law_drain_fifo(next, cancelled);
        let rest = next.drain_handoffs(cancelled);
        let more = next.drain_taken(cancelled) as int;
        assert(e.dispatchees.take(taken) =~= seq![first] + waiting.take(more));
        waiting.take(more).lemma_filter_prepend(first, is_live(cancelled));
        assert(after.dispatchees =~= e.dispatchees.skip(taken));
        if cancelled.contains(first) {
            assert(served(handoffs) =~= Seq::<u64>::empty() + served(rest));
        } else {
            assert(served(handoffs) =~= seq![first] + served(rest));
            assert forall|i: int| 0 <= i < handoffs.len() implies (#[trigger] handoffs[i]).conn
                == e.connected[i] && handoffs[i].peer_addr == e.peer_addr by {
                if i > 0 {
                    assert(handoffs[i] == rest[i - 1]);
                }
            }
            assert(after.connected =~= e.connected.skip(handoffs.len() as int));
            assert(after.completing =~= e.completing + e.connected.take(handoffs.len() as int));
        }
    }
}

/// At-most-once hand-off, for a drain: where no connection and no request
/// is known twice, no connection is handed to two requests and no request
/// gets two connections; what is handed out is warm no longer, who is
/// served waits no longer, and nobody who gave up is served.
pub proof fn law_drain_hands_off_at_most_once(e: EndpointView, cancelled: Seq<u64>)
    requires
        e.connected.no_duplicates(),
        e.dispatchees.no_duplicates(),
    ensures
        ({
            let handoffs = e.drain_handoffs(cancelled);
            let after = e.drained(cancelled);
            &&& forall|i: int, j: int|
                0 <= i < j < handoffs.len() ==> (#[trigger] handoffs[i]).conn != (
                #[trigger] handoffs[j]).conn && handoffs[i].dispatchee != handoffs[j].dispatchee
            &&& forall|i: int|
                0 <= i < handoffs.len() ==> {
                    &&& e.connected.contains((#[trigger] handoffs[i]).conn)
                    &&& e.dispatchees.contains(handoffs[i].dispatchee)
                    &&& !cancelled.contains(handoffs[i].dispatchee)
                    &&& !after.connected.contains(handoffs[i].conn)
                    &&& !after.dispatchees.contains(handoffs[i].dispatchee)
                }
        }),
{
    let handoffs = e.drain_handoffs(cancelled);
    let after = e.drained(cancelled);
    let taken = e.drain_taken(cancelled) as int;
    let front = e.dispatchees.take(taken);
    law_drain_fifo(e, cancelled);
    assert forall|i: int, j: int|
        0 <= i < front.len() && 0 <= j < front.len() && i != j implies
        front[i]
        != front[j] by {
        assert(front[i] == e.dispatchees[i] && front[j] == e.dispatchees[j]);
    }
    lemma_filter_no_duplicates(front, is_live(cancelled));
    assert forall|i: int| 0 <= i < handoffs.len() implies {
        &&& e.connected.contains((#[trigger] handoffs[i]).conn)
        &&& e.dispatchees.contains(handoffs[i].dispatchee)
        &&& !cancelled.contains(handoffs[i].dispatchee)
        &&& !after.connected.contains(handoffs[i].conn)
        &&& !after.dispatchees.contains(handoffs[i].dispatchee)
    } by {
        let d = handoffs[i].dispatchee;
        assert(served(handoffs)[i] == d);
        lemma_filter_member(front, is_live(cancelled), i);
        let k = choose|k: int| 0 <= k < front.len() && front[k] == front.filter(is_live(cancelled))[i];
        assert(e.dispatchees[k] == d);
        assert(e.connected[i] == handoffs[i].conn);
        if after.connected.contains(handoffs[i].conn) {
            let x = choose|x: int| 0 <= x < after.connected.len() && after.connected[x] == handoffs[i].conn;
            assert(e.connected[x + handoffs.len()] == e.connected[i]);
        }
        if after.dispatchees.contains(d) {
            let x = choose|x: int| 0 <= x < after.dispatchees.len() && after.dispatchees[x] == d;
            assert(e.dispatchees[x + taken] == e.dispatchees[k]);
        }
    }
    assert forall|i: int, j: int|
        0 <= i < j < handoffs.len() implies
        (#[trigger] handoffs[i]).conn != (
    #[trigger] handoffs[j]).conn && handoffs[i].dispatchee != handoffs[j].dispatchee by {
        assert(e.connected[i] != e.connected[j]);
        assert(served(handoffs)[i] == handoffs[i].dispatchee);
        assert(served(handoffs)[j] == handoffs[j].dispatchee);
    }
}

/// Selection: the endpoint selected is one of the two candidates, and no
/// candidate has a smaller load than it.
pub proof fn law_selection_is_least_loaded(v: ManagerView, i0: int, i1: int)
    requires
        are_candidates(v.available.len(), i0, i1),
    ensures
        v.may_select(v.lesser_loaded(i0, i1)),
        v.lesser_loaded(i0, i1) == i0 || v.lesser_loaded(i0, i1) == i1,
        v.available[v.lesser_loaded(i0, i1)].load.le(v.available[i0].load),
        v.available[v.lesser_loaded(i0, i1)].load.le(v.available[i1].load),
        v.available[i0].load == v.available[i1].load ==> v.lesser_loaded(i0, i1) == i0,
{
    lemma_load_order(v.available[i0].load, v.available[i1].load, v.available[i0].load);
    lemma_load_order(v.available[i1].load, v.available[i0].load, v.available[i1].load);
}

/// At-most-once hand-off, for the requests given out in one go: each
/// hand-off serves a request of the intake that is still wanted, there
/// are no more hand-offs than requests, and where no request is known
/// twice, none is served twice.
pub proof fn law_dispatch_serves_at_most_once(
    v: ManagerView,
    intake: Seq<u64>,
    cancelled: Seq<u64>,
    picks: Seq<int>,
)
    ensures
        v.dispatch_handoffs(intake, cancelled, picks).len() <= intake.len(),
        forall|i: int|
            0 <= i < v.dispatch_handoffs(intake, cancelled, picks).len() ==> intake.contains(
                (#[trigger] v.dispatch_handoffs(intake, cancelled, picks)[i]).dispatchee,
            ) && !cancelled.contains(v.dispatch_handoffs(intake, cancelled, picks)[i].dispatchee),
        intake.no_duplicates() ==> served(
            v.dispatch_handoffs(intake, cancelled, picks),
        ).no_duplicates(),
    decreases intake.len(),
{
    let handoffs = v.dispatch_handoffs(intake, cancelled, picks);
    if intake.len() > 0 {
        let rest = intake.drop_last();
        let earlier = v.dispatch_handoffs(rest, cancelled, picks.drop_last());
        law_dispatch_serves_at_most_once(v, rest, cancelled, picks.drop_last());
        assert forall|i: int| 0 <= i < handoffs.len() implies intake.contains(
            (#[trigger] handoffs[i]).dispatchee,
        ) && !cancelled.contains(handoffs[i].dispatchee) by {
            if i < earlier.len() {
                assert(handoffs[i] == earlier[i]);
                let k = choose|k: int| 0 <= k < rest.len() && rest[k] == earlier[i].dispatchee;
                assert(intake[k] == rest[k]);
            } else {
                assert(handoffs[i].dispatchee == intake[intake.len() - 1]);
            }
        }
        if intake.no_duplicates() {
            assert forall|i: int, j: int|
                0 <= i < rest.len() && 0 <= j < rest.len() && i != j implies
                rest[i]
                != rest[j] by {
                assert(rest[i] == intake[i] && rest[j] == intake[j]);
            }
            assert forall|i: int, j: int|
                0 <= i < handoffs.len() && 0 <= j < handoffs.len() && i != j implies served(handoffs)[i]
                != served(handoffs)[j] by {
                if i < earlier.len() && j < earlier.len() {
                    assert(served(earlier)[i] != served(earlier)[j]);
                    assert(handoffs[i] == earlier[i] && handoffs[j] == earlier[j]);
                } else {
                    let old = if i < earlier.len() {
                        i
                    } else {
                        j
                    };
                    assert(handoffs[old] == earlier[old]);
                    let k = choose|k: int| 0 <= k < rest.len() && rest[k] == earlier[old].dispatchee;
                    assert(intake[k] != intake[intake.len() - 1]);
                }
            }
        }
    } else {
        assert(served(handoffs) =~= Seq::empty());
    }
}

/// No request is lost: after the requests were given out, every one of
/// them that is still wanted has been handed a connection or waits at an
/// available endpoint.
pub proof fn law_dispatch_loses_no_request(
    v: ManagerView,
    intake: Seq<u64>,
    cancelled: Seq<u64>,
    picks: Seq<int>,
    k: int,
)
    requires
        v.are_picks(intake, cancelled, picks),
        0 <= k < intake.len(),
        !cancelled.contains(intake[k]),
    ensures
        served(v.dispatch_handoffs(intake, cancelled, picks)).contains(intake[k]) || exists|j: int|
            0 <= j < v.available.len() && (#[trigger] v.dispatch_run(
                intake,
                cancelled,
                picks,
            ).available[j]).dispatchees.contains(intake[k]),
    decreases intake.len(),
{
    let rest = intake.drop_last();
    let earlier = picks.drop_last();
    let before = v.dispatch_run(rest, cancelled, earlier);
    let after = v.dispatch_run(intake, cancelled, picks);
    let handoffs = v.dispatch_handoffs(intake, cancelled, picks);
    let pick = picks.last();
    let last = intake.last();
    assert forall|i: int| 0 <= i < rest.len() implies {
        let at = v.dispatch_run(rest.take(i), cancelled, earlier.take(i));
        0 <= #[trigger] earlier[i] < at.available.len() && at.may_select(earlier[i])
    } by {
        assert(rest.take(i) =~= intake.take(i));
        assert(earlier.take(i) =~= picks.take(i));
        assert(earlier[i] == picks[i]);
    }
    law_dispatch_keeps_table(v, rest, cancelled, earlier);
    assert(peers(before.available).len() == before.available.len());
    assert(intake.take(intake.len() - 1) =~= rest);
    assert(picks.take(intake.len() - 1) =~= earlier);
    assert(0 <= pick < before.available.len());
    let target = before.available[pick];
    if k < rest.len() {
        law_dispatch_loses_no_request(v, rest, cancelled, earlier, k);
        let got = v.dispatch_handoffs(rest, cancelled, earlier);
        if served(got).contains(intake[k]) {
            let i = choose|i: int| 0 <= i < served(got).len() && served(got)[i] == intake[k];
            assert(handoffs[i] == got[i]);
            assert(served(handoffs)[i] == intake[k]);
        } else {
            let j = choose|j: int|
                0 <= j < v.available.len() && (#[trigger] before.available[j]).dispatchees.contains(
                    rest[k],
                );
            if j == pick {
                let x = choose|x: int|
                    0 <= x < target.dispatchees.len() && target.dispatchees[x] == intake[k];
                assert(after.available[j].dispatchees[x] == intake[k]);
            }
            assert(after.available[j].dispatchees.contains(intake[k]));
        }
    } else {
        if target.connected.len() == 0 {
            assert(after.available[pick].dispatchees[target.dispatchees.len() as int] == last);
            assert(after.available[pick].dispatchees.contains(intake[k]));
        } else {
            assert(served(handoffs)[handoffs.len() - 1] == last);
        }
    }
}

/// At-most-once hand-off, for the end of a poll over all the endpoints:
/// where no warm connection and no waiting request is known twice in the
/// table, no connection is handed to two requests and no request gets two
/// connections; every hand-off gives a connection that was warm to a
/// request that waited and is still wanted.
pub proof fn law_poll_hands_off_at_most_once(s: Seq<EndpointView>, cancelled: Seq<u64>)
    requires
        warm(s).no_duplicates(),
        waiting(s).no_duplicates(),
    ensures
        ({
            let handoffs = drain_handoffs(s, cancelled);
            &&& forall|i: int, j: int|
                0 <= i < j < handoffs.len() ==> (#[trigger] handoffs[i]).conn != (
                #[trigger] handoffs[j]).conn && handoffs[i].dispatchee != handoffs[j].dispatchee
            &&& forall|i: int|
                0 <= i < handoffs.len() ==> {
                    &&& warm(s).contains((#[trigger] handoffs[i]).conn)
                    &&& waiting(s).contains(handoffs[i].dispatchee)
                    &&& !cancelled.contains(handoffs[i].dispatchee)
                }
        }),
    decreases s.len(),
{
    let handoffs = drain_handoffs(s, cancelled);
    if s.len() > 0 {
        let rest = s.drop_last();
        let e = s.last();
        let earlier = drain_handoffs(rest, cancelled);
        let last = e.drain_handoffs(cancelled);
        lemma_no_duplicates_split(warm(rest), e.connected);
        lemma_no_duplicates_split(waiting(rest), e.dispatchees);
        law_poll_hands_off_at_most_once(rest, cancelled);
        law_drain_hands_off_at_most_once(e, cancelled);
        assert forall|i: int| 0 <= i < handoffs.len() implies {
            &&& warm(s).contains((#[trigger] handoffs[i]).conn)
            &&& waiting(s).contains(handoffs[i].dispatchee)
            &&& !cancelled.contains(handoffs[i].dispatchee)
            &&& i < earlier.len() ==> warm(rest).contains(handoffs[i].conn) && waiting(rest).contains(
                handoffs[i].dispatchee,
            )
            &&& i >= earlier.len() ==> e.connected.contains(handoffs[i].conn)
                && e.dispatchees.contains(handoffs[i].dispatchee)
        } by {
            if i < earlier.len() {
                assert(handoffs[i] == earlier[i]);
                let k = choose|k: int| 0 <= k < warm(rest).len() && warm(rest)[k] == earlier[i].conn;
                assert(warm(s)[k] == warm(rest)[k]);
                let k = choose|k: int|
                    0 <= k < waiting(rest).len() && waiting(rest)[k] == earlier[i].dispatchee;
                assert(waiting(s)[k] == waiting(rest)[k]);
            } else {
                let h = last[i - earlier.len()];
                assert(handoffs[i] == h);
                let k = choose|k: int| 0 <= k < e.connected.len() && e.connected[k] == h.conn;
                assert(warm(s)[warm(rest).len() + k] == e.connected[k]);
                let k = choose|k: int| 0 <= k < e.dispatchees.len() && e.dispatchees[k] == h.dispatchee;
                assert(waiting(s)[waiting(rest).len() + k] == e.dispatchees[k]);
            }
        }
        assert forall|i: int, j: int|
            0 <= i < j < handoffs.len() implies
            (#[trigger] handoffs[i]).conn != (
        #[trigger] handoffs[j]).conn && handoffs[i].dispatchee != handoffs[j].dispatchee by {
            if j < earlier.len() {
                assert(handoffs[i] == earlier[i] && handoffs[j] == earlier[j]);
            } else if i >= earlier.len() {
                assert(handoffs[i] == last[i - earlier.len()]);
                assert(handoffs[j] == last[j - earlier.len()]);
            } else {
                assert(warm(rest).contains(handoffs[i].conn));
                assert(e.connected.contains(handoffs[j].conn));
                assert(waiting(rest).contains(handoffs[i].dispatchee));
                assert(e.dispatchees.contains(handoffs[j].dispatchee));
            }
        }
    }
}

/// Stable order: an update that names every available peer and finds every
/// retired endpoint at work, none of them named, leaves each endpoint in
/// its place. The available ones take the weights of the update, and new
/// peers come behind them.
pub proof fn law_sweep_keeps_order(v: ManagerView, dsts: Seq<DstAddr>, i: int)
    requires
        v.wf(),
        forall|k: int| 0 <= k < v.available.len() ==> named(dsts, (#[trigger] v.available[k]).peer_addr),
        forall|k: int|
            0 <= k < v.retired.len() ==> !named(dsts, (#[trigger] v.retired[k]).peer_addr)
                && !v.retired[k].is_idle(),
        0 <= i < v.available.len(),
    ensures
        v.resolved(dsts).retired == v.retired,
        v.resolved(dsts).available.len() >= v.available.len(),
        v.resolved(dsts).available[i] == v.available[i].with_weight(
            weight_given(dsts, v.available[i].peer_addr),
        ),
{
    // Every available endpoint passes as named, so none passes as retiring;
    // every retired one passes as retiring, so none passes as named.
    lemma_filter_all(v.available, is_named(dsts));
    lemma_filter_all(v.retired, is_retiring(dsts));
    lemma_filter_contrary(v.available, is_named(dsts), is_retiring(dsts));
    lemma_filter_contrary(v.retired, is_retiring(dsts), is_named(dsts));
    assert(v.retired + Seq::<EndpointView>::empty() =~= v.retired);
    assert(v.available + Seq::<EndpointView>::empty() =~= v.available);
    lemma_split_distinct(v.available, v.retired);
    lemma_mapping(dsts);
    lemma_upsert_all_at(v.available, v.dst_name, mapping(dsts), i);
    let a = v.available[i].peer_addr;
    assert(named(mapping(dsts), a));
}

} // verus!
