//! The mathematical model of the balancer: the endpoint table as two
//! sequences of endpoint values, and what each operation makes of it.
use super::choice::are_candidates;
use super::DstAddr;
use super::endpoint::DialOutcome;
use super::endpoint::EndpointView;
use super::endpoint::Handoff;
use super::Error;
use super::PeerAddr;
use super::poll::clip;
use super::poll::ConnectionPoll;
use super::poll::ConnectionPollSummary;
use super::poll::total_connected;
use super::poll::total_failures;
use super::poll::total_pending;
use super::Resolution;
use vstd::prelude::*;

verus! {

/// The peers of the endpoints of `s`, in order.
pub open spec fn peers(s: Seq<EndpointView>) -> Seq<PeerAddr> {
    Seq::new(s.len(), |i: int| s[i].peer_addr)
}

/// Whether some endpoint of `s` belongs to the peer `a`.
pub open spec fn has_addr(s: Seq<EndpointView>, a: PeerAddr) -> bool {
    exists|i: int| 0 <= i < s.len() && (#[trigger] s[i]).peer_addr == a
}

/// The position in `s` of the endpoint of peer `a`, where there is one.
pub open spec fn addr_index(s: Seq<EndpointView>, a: PeerAddr) -> int {
    choose|i: int| 0 <= i < s.len() && (#[trigger] s[i]).peer_addr == a
}

/// No two endpoints of `s` belong to the same peer.
pub open spec fn distinct_addrs(s: Seq<EndpointView>) -> bool {
    forall|i: int, j: int|
        0 <= i < j < s.len() ==> (#[trigger] s[i]).peer_addr != (#[trigger] s[j]).peer_addr
}

/// Whether the update `dsts` names the peer `a`.
pub open spec fn named(dsts: Seq<DstAddr>, a: PeerAddr) -> bool {
    exists|j: int| 0 <= j < dsts.len() && (#[trigger] dsts[j]).addr == a
}

/// The position in `dsts` of an entry for peer `a`, where there is one.
pub open spec fn named_index(dsts: Seq<DstAddr>, a: PeerAddr) -> int {
    choose|j: int| 0 <= j < dsts.len() && (#[trigger] dsts[j]).addr == a
}

/// No two entries of `dsts` name the same peer.
pub open spec fn distinct_names(dsts: Seq<DstAddr>) -> bool {
    forall|i: int, j: int|
        0 <= i < j < dsts.len() ==> (#[trigger] dsts[i]).addr != (#[trigger] dsts[j]).addr
}

/// The endpoints whose peer the update names.
pub open spec fn is_named(dsts: Seq<DstAddr>) -> spec_fn(EndpointView) -> bool {
    |e: EndpointView| named(dsts, e.peer_addr)
}

/// The endpoints that the update drops while they still have work: a dial in
/// flight or a request waiting.
pub open spec fn is_retiring(dsts: Seq<DstAddr>) -> spec_fn(EndpointView) -> bool {
    |e: EndpointView| !named(dsts, e.peer_addr) && !e.is_idle()
}

/// The mapping from peer to weight after one more entry of an update: a peer
/// named before keeps its place and takes the new weight, a new peer comes
/// last.
pub open spec fn remember(m: Seq<DstAddr>, d: DstAddr) -> Seq<DstAddr> {
    if named(m, d.addr) {
        m.update(named_index(m, d.addr), d)
    } else {
        m.push(d)
    }
}

/// The mapping from peer to weight that an update amounts to: one entry for
/// each peer, in the order in which the peers are first named, each with the
/// weight of its last mention.
pub open spec fn mapping(dsts: Seq<DstAddr>) -> Seq<DstAddr>
    decreases dsts.len(),
{
    if dsts.len() == 0 {
        Seq::empty()
    } else {
        remember(mapping(dsts.drop_last()), dsts.last())
    }
}

/// The available endpoints after one entry of the mapping was applied: the
/// endpoint of a known peer takes the entry's weight, an unknown peer gets a
/// new endpoint at the end.
pub open spec fn upsert(available: Seq<EndpointView>, dst_name: Seq<char>, d: DstAddr) -> Seq<
    EndpointView,
> {
    if has_addr(available, d.addr) {
        let i = addr_index(available, d.addr);
        available.update(i, available[i].with_weight(d.weight))
    } else {
        available.push(EndpointView::fresh(dst_name, d.addr, d.weight))
    }
}

/// The available endpoints after every entry of the mapping `m` was applied
/// in order.
pub open spec fn upsert_all(available: Seq<EndpointView>, dst_name: Seq<char>, m: Seq<DstAddr>) -> Seq<
    EndpointView,
>
    decreases m.len(),
{
    if m.len() == 0 {
        available
    } else {
        upsert(upsert_all(available, dst_name, m.drop_last()), dst_name, m.last())
    }
}

/// The hand-offs decided on when each endpoint of `s`, in order, pairs its
/// warm connections with its waiting requests.
pub open spec fn drain_handoffs(s: Seq<EndpointView>, cancelled: Seq<u64>) -> Seq<Handoff>
    decreases s.len(),
{
    if s.len() == 0 {
        Seq::empty()
    } else {
        drain_handoffs(s.drop_last(), cancelled) + s.last().drain_handoffs(cancelled)
    }
}

/// The first position in `s` of an endpoint that awaits the outcome of
/// connection `conn`, if there is one.
pub open spec fn first_awaiting(s: Seq<EndpointView>, conn: u64) -> Option<int> {
    if exists|i: int| 0 <= i < s.len() && (#[trigger] s[i]).completing.contains(conn) {
        Some(
            choose|i: int|
                0 <= i < s.len() && (#[trigger] s[i]).completing.contains(conn) && forall|j: int|
                    0 <= j < i ==> !(#[trigger] s[j]).completing.contains(conn),
        )
    } else {
        None
    }
}

/// The warm connections of the endpoints of `s`, endpoint after endpoint.
pub open spec fn warm(s: Seq<EndpointView>) -> Seq<u64>
    decreases s.len(),
{
    if s.len() == 0 {
        Seq::empty()
    } else {
        warm(s.drop_last()) + s.last().connected
    }
}

/// The requests that wait at the endpoints of `s`, endpoint after endpoint.
pub open spec fn waiting(s: Seq<EndpointView>) -> Seq<u64>
    decreases s.len(),
{
    if s.len() == 0 {
        Seq::empty()
    } else {
        waiting(s.drop_last()) + s.last().dispatchees
    }
}

/// The dials in flight on the endpoints of `s`, endpoint after endpoint.
pub open spec fn in_flight(s: Seq<EndpointView>) -> Seq<u64>
    decreases s.len(),
{
    if s.len() == 0 {
        Seq::empty()
    } else {
        in_flight(s.drop_last()) + s.last().connecting
    }
}

/// The mathematical value of a manager.
pub struct ManagerView {
    pub dst_name: Seq<char>,
    pub minimum_connections: nat,
    /// The endpoints that new requests may be given to, in table order.
    pub available: Seq<EndpointView>,
    /// The endpoints that are only left to finish their work, in table order.
    pub retired: Seq<EndpointView>,
}

impl ManagerView {
    /// Every peer has at most one endpoint, in one of the two partitions.
    pub open spec fn wf(self) -> bool {
        distinct_addrs(self.available + self.retired)
    }

    /// The table after a successful update.
    ///
    /// A retired endpoint that the update names is available again, behind
    /// those that were available; the others stay in their partition if the
    /// update names them (available) or they still have work (retired), and
    /// an available endpoint that is dropped with work left becomes retired.
    /// Whatever is neither named nor at work is gone. Then the mapping of
    /// the update is applied to the available endpoints.
    pub open spec fn resolved(self, dsts: Seq<DstAddr>) -> ManagerView {
        ManagerView {
            available: upsert_all(
                self.available.filter(is_named(dsts)) + self.retired.filter(is_named(dsts)),
                self.dst_name,
                mapping(dsts),
            ),
            retired: self.retired.filter(is_retiring(dsts)) + self.available.filter(
                is_retiring(dsts),
            ),
            ..self
        }
    }

    /// The table after one poll of the service-discovery stream: only the
    /// result of a successful lookup changes it.
    pub open spec fn after_resolution(self, resolution: Resolution) -> ManagerView {
        match resolution {
            Resolution::Update(Ok(dsts)) => self.resolved(dsts@),
            _ => self,
        }
    }

    /// Of the available endpoints at `i0` and `i1`, the position of the one
    /// with the smaller load; `i0` where the loads are equal.
    pub open spec fn lesser_loaded(self, i0: int, i1: int) -> int {
        if self.available[i0].load.le(self.available[i1].load) {
            i0
        } else {
            i1
        }
    }

    /// Whether a selection may come out as `i`: the only endpoint where
    /// there is one, else the lesser loaded of two candidates.
    pub open spec fn may_select(self, i: int) -> bool {
        if self.available.len() == 1 {
            i == 0
        } else {
            exists|i0: int, i1: int| #[trigger]
                are_candidates(self.available.len(), i0, i1) && i == self.lesser_loaded(i0, i1)
        }
    }

    /// The table after the request `dispatchee` was given to the available
    /// endpoint at `i`.
    pub open spec fn dispatched_to(self, i: int, dispatchee: u64, live: bool) -> ManagerView {
        ManagerView {
            available: self.available.update(i, self.available[i].dispatched(dispatchee, live)),
            ..self
        }
    }

    /// The table after the requests of `intake` were given, in order, to the
    /// available endpoints at `picks`. A request in `cancelled` is not live.
    pub open spec fn dispatch_run(self, intake: Seq<u64>, cancelled: Seq<u64>, picks: Seq<int>) -> ManagerView
        decreases intake.len(),
    {
        if intake.len() == 0 {
            self
        } else {
            self.dispatch_run(intake.drop_last(), cancelled, picks.drop_last()).dispatched_to(
                picks.last(),
                intake.last(),
                !cancelled.contains(intake.last()),
            )
        }
    }

    /// The hand-offs decided on while the requests of `intake` were given to
    /// the available endpoints at `picks`, in order.
    pub open spec fn dispatch_handoffs(self, intake: Seq<u64>, cancelled: Seq<u64>, picks: Seq<int>) -> Seq<
        Handoff,
    >
        decreases intake.len(),
    {
        if intake.len() == 0 {
            Seq::empty()
        } else {
            let before = self.dispatch_run(intake.drop_last(), cancelled, picks.drop_last());
            let earlier = self.dispatch_handoffs(intake.drop_last(), cancelled, picks.drop_last());
            match before.available[picks.last()].handoff(
                intake.last(),
                !cancelled.contains(intake.last()),
            ) {
                Some(h) => earlier.push(h),
                None => earlier,
            }
        }
    }

    /// Whether `picks` is a run of selections for `intake`: one pick for
    /// each request, each a selection that the table of its moment allows.
    pub open spec fn are_picks(self, intake: Seq<u64>, cancelled: Seq<u64>, picks: Seq<int>) -> bool {
        &&& picks.len() == intake.len()
        &&& forall|k: int|
            0 <= k < intake.len() ==> {
                let before = self.dispatch_run(intake.take(k), cancelled, picks.take(k));
                0 <= #[trigger] picks[k] < before.available.len() && before.may_select(picks[k])
            }
    }

    /// The table after the dials in flight on the available endpoints were
    /// polled with these reports.
    pub open spec fn advanced(self, ready: Seq<u64>, failed: Seq<u64>) -> ManagerView {
        ManagerView {
            available: Seq::new(
                self.available.len(),
                |k: int| self.available[k].advanced(ready, failed),
            ),
            ..self
        }
    }

    /// The counts with which the top-up begins after the table `self` was
    /// polled with these reports.
    pub open spec fn polled(self, ready: Seq<u64>, failed: Seq<u64>) -> ConnectionPollSummary {
        ConnectionPollSummary {
            pending: clip(total_pending(self.advanced(ready, failed).available) as int),
            connected: clip(total_connected(self.advanced(ready, failed).available) as int),
            dispatched: 0,
            failed: clip(total_failures(self.available, ready, failed) as int),
        }
    }

    /// The counts of the poll `p` are those of this table.
    pub open spec fn tracked_by(self, p: ConnectionPoll) -> bool {
        &&& p.summary.pending == clip(total_pending(self.available) as int)
        &&& p.summary.connected == clip(total_connected(self.available) as int)
    }

    /// The position of the available endpoint to dial next, if the top-up
    /// goes on: it does while an endpoint is available and the connections
    /// warm or in the making are fewer than the minimum, until a round over
    /// all the endpoints ends without a dial accepted.
    pub open spec fn dial_target(self, p: ConnectionPoll) -> Option<int> {
        if self.available.len() == 0 || p.summary.total() >= self.minimum_connections {
            None
        } else if p.cursor < self.available.len() {
            Some(p.cursor as int)
        } else if p.accepted {
            Some(0)
        } else {
            None
        }
    }

    /// The poll after the next dial was asked for: it awaits the outcome,
    /// and has begun a new round if the last one was over.
    pub open spec fn dialing(self, p: ConnectionPoll) -> ConnectionPoll {
        match self.dial_target(p) {
            None => p,
            Some(t) => ConnectionPoll {
                cursor: t as usize,
                accepted: p.cursor < self.available.len() && p.accepted,
                awaiting: true,
                ..p
            },
        }
    }

    /// Whether the poll `p` awaits the outcome of a dial to an endpoint of
    /// this table.
    pub open spec fn awaits_dial(self, p: ConnectionPoll) -> bool {
        p.awaiting && p.cursor < self.available.len()
    }

    /// The table after the outcome of the dial that `p` awaits was recorded.
    pub open spec fn dialed(self, p: ConnectionPoll, conn: u64, outcome: DialOutcome) -> ManagerView {
        if self.awaits_dial(p) {
            ManagerView {
                available: self.available.update(
                    p.cursor as int,
                    self.available[p.cursor as int].dialed(conn, outcome),
                ),
                ..self
            }
        } else {
            self
        }
    }

    /// The table after every available endpoint paired its warm connections
    /// with its waiting requests.
    pub open spec fn drained(self, cancelled: Seq<u64>) -> ManagerView {
        ManagerView {
            available: Seq::new(self.available.len(), |k: int| self.available[k].drained(cancelled)),
            ..self
        }
    }

    /// The table after the outcome of connection `conn` arrived: the first
    /// endpoint that awaits it, the available ones before the retired, is
    /// released from it. An outcome that nobody awaits changes nothing.
    pub open spec fn released(self, conn: u64) -> ManagerView {
        match first_awaiting(self.available, conn) {
            Some(i) => ManagerView {
                available: self.available.update(i, self.available[i].released(conn)),
                ..self
            },
            None => match first_awaiting(self.retired, conn) {
                Some(i) => ManagerView {
                    retired: self.retired.update(i, self.retired[i].released(conn)),
                    ..self
                },
                None => self,
            },
        }
    }

    /// The outcome of giving out `intake`: with no endpoint available
    /// nothing happens, else every request goes to a selected endpoint.
    pub open spec fn gives_out(
        self,
        intake: Seq<u64>,
        cancelled: Seq<u64>,
        after: ManagerView,
        handoffs: Seq<Handoff>,
    ) -> bool {
        if self.available.len() == 0 {
            after == self && handoffs == Seq::<Handoff>::empty()
        } else {
            exists|picks: Seq<int>| #[trigger] self.dispatches(intake, cancelled, picks, after, handoffs)
        }
    }

    /// Whether a wake of a manager at work, in which the requests were
    /// given out with the table `mid` and the hand-offs `handoffs` as the
    /// outcome, leads to the table `after` and the answer `answer`, and
    /// leaves the stream `lost` or not.
    ///
    /// The end of the stream is fatal and stops the wake after the
    /// requests were given out. Otherwise the result of a lookup is taken
    /// and a poll of the connections begun.
    pub open spec fn wakes(
        self,
        intake: Seq<u64>,
        cancelled: Seq<u64>,
        resolution: Resolution,
        ready: Seq<u64>,
        failed: Seq<u64>,
        mid: ManagerView,
        handoffs: Seq<Handoff>,
        after: ManagerView,
        lost: bool,
        answer: Result<ConnectionPoll, Error>,
    ) -> bool {
        &&& self.gives_out(intake, cancelled, mid, handoffs)
        &&& match resolution {
            Resolution::Ended => {
                &&& lost
                &&& after == mid
                &&& answer == Err::<ConnectionPoll, Error>(Error::ResolverLost)
            },
            _ => {
                &&& !lost
                &&& after == mid.after_resolution(resolution).advanced(ready, failed)
                &&& answer == Ok::<ConnectionPoll, Error>(
                    ConnectionPoll::begun(mid.after_resolution(resolution).polled(ready, failed)),
                )
            },
        }
    }

    /// Whether giving out `intake` along `picks` leads to the table `after`
    /// and the hand-offs `handoffs`.
    pub open spec fn dispatches(
        self,
        intake: Seq<u64>,
        cancelled: Seq<u64>,
        picks: Seq<int>,
        after: ManagerView,
        handoffs: Seq<Handoff>,
    ) -> bool {
        &&& self.are_picks(intake, cancelled, picks)
        &&& after == self.dispatch_run(intake, cancelled, picks)
        &&& handoffs == self.dispatch_handoffs(intake, cancelled, picks)
    }
}

} // verus!
