//! The record kept for one peer: its dials in flight, its warm connections,
//! the requests waiting for one, and the connections in use.
use super::lemmas::lemma_filter_step;
use super::load::Load;
use super::PeerAddr;
use std::collections::VecDeque;
use vstd::prelude::*;

verus! {

/// The decision to give connection `conn` of peer `peer_addr` to the waiting
/// request `dispatchee`. The caller carries it out.
#[derive(Clone, Copy, Debug, PartialEq, Eq, Structural)]
pub struct Handoff {
    pub conn: u64,
    pub dispatchee: u64,
    pub peer_addr: PeerAddr,
}

/// What one poll of a dial returned.
#[derive(Clone, Copy, Debug, PartialEq, Eq, Structural)]
pub enum DialOutcome {
    /// The dial is still in flight.
    Pending,
    /// The dial produced a connected socket.
    Connected,
    /// The dial failed.
    Failed,
}

/// The dials that a poll found connected.
pub open spec fn is_ready(ready: Seq<u64>) -> spec_fn(u64) -> bool {
    |c: u64| ready.contains(c)
}

/// The dials that a poll found failed. A dial reported both ways counts as
/// connected.
pub open spec fn is_failed(ready: Seq<u64>, failed: Seq<u64>) -> spec_fn(u64) -> bool {
    |c: u64| !ready.contains(c) && failed.contains(c)
}

/// The dials that a poll left in flight.
pub open spec fn is_pending(ready: Seq<u64>, failed: Seq<u64>) -> spec_fn(u64) -> bool {
    |c: u64| !ready.contains(c) && !failed.contains(c)
}

/// The requests whose owners still want a connection.
pub open spec fn is_live(cancelled: Seq<u64>) -> spec_fn(u64) -> bool {
    |d: u64| !cancelled.contains(d)
}

/// The requests that the hand-offs serve, in order.
pub open spec fn served(handoffs: Seq<Handoff>) -> Seq<u64> {
    Seq::new(handoffs.len(), |i: int| handoffs[i].dispatchee)
}

/// The mathematical value of an [`Endpoint`].
pub struct EndpointView {
    pub dst_name: Seq<char>,
    pub peer_addr: PeerAddr,
    pub weight: u32,
    pub load: Load,
    /// Dials in flight, oldest first.
    pub connecting: Seq<u64>,
    /// Established connections that no request has taken yet, oldest first.
    pub connected: Seq<u64>,
    /// Requests waiting for a connection, oldest first.
    pub dispatchees: Seq<u64>,
    /// Connections in use whose outcome is still awaited.
    pub completing: Seq<u64>,
}

impl EndpointView {
    /// The record of a peer that was just discovered.
    pub open spec fn fresh(dst_name: Seq<char>, peer_addr: PeerAddr, weight: u32) -> EndpointView {
        EndpointView {
            dst_name,
            peer_addr,
            weight,
            load: Load::Unmeasured,
            connecting: Seq::empty(),
            connected: Seq::empty(),
            dispatchees: Seq::empty(),
            completing: Seq::empty(),
        }
    }

    /// An endpoint is idle when no dial is in flight and no request waits.
    /// Warm connections that nobody uses do not keep it busy.
    pub open spec fn is_idle(self) -> bool {
        self.connecting.len() == 0 && self.dispatchees.len() == 0
    }

    /// The endpoint with another weight.
    pub open spec fn with_weight(self, weight: u32) -> EndpointView {
        EndpointView { weight, ..self }
    }

    /// The endpoint after connection `conn` was booked as in use: its
    /// outcome is awaited from now on, and the load is one higher.
    pub open spec fn with_ctx(self, conn: u64) -> EndpointView {
        EndpointView {
            completing: self.completing.push(conn),
            load: self.load.spec_incremented(),
            ..self
        }
    }

    /// The endpoint after its oldest warm connection was put to use.
    pub open spec fn after_handoff(self) -> EndpointView
        recommends
            self.connected.len() > 0,
    {
        EndpointView { connected: self.connected.drop_first(), ..self.with_ctx(self.connected[0]) }
    }

    /// The hand-off that a request gets at once, if any: the oldest warm
    /// connection, provided there is one and the request is still wanted.
    pub open spec fn handoff(self, dispatchee: u64, live: bool) -> Option<Handoff> {
        if self.connected.len() > 0 && live {
            Some(Handoff { conn: self.connected[0], dispatchee, peer_addr: self.peer_addr })
        } else {
            None
        }
    }

    /// The endpoint after `dispatchee` was given to it. With no warm
    /// connection the request joins the queue. With one, a live request takes
    /// it; an abandoned one is forgotten and the connection stays first.
    pub open spec fn dispatched(self, dispatchee: u64, live: bool) -> EndpointView {
        if self.connected.len() == 0 {
            EndpointView { dispatchees: self.dispatchees.push(dispatchee), ..self }
        } else if live {
            self.after_handoff()
        } else {
            self
        }
    }

    /// The endpoint after its dials were polled: those in `ready` join the
    /// warm connections in their order, those in `failed` are forgotten, the
    /// others stay in flight in their order.
    pub open spec fn advanced(self, ready: Seq<u64>, failed: Seq<u64>) -> EndpointView {
        EndpointView {
            connecting: self.connecting.filter(is_pending(ready, failed)),
            connected: self.connected + self.connecting.filter(is_ready(ready)),
            ..self
        }
    }

    /// How many of the dials in flight a poll with these reports finds failed.
    pub open spec fn failures(self, ready: Seq<u64>, failed: Seq<u64>) -> nat {
        self.connecting.filter(is_failed(ready, failed)).len()
    }

    /// The endpoint after the outcome of a dial just begun was recorded.
    pub open spec fn dialed(self, conn: u64, outcome: DialOutcome) -> EndpointView {
        match outcome {
            DialOutcome::Pending => EndpointView { connecting: self.connecting.push(conn), ..self },
            DialOutcome::Connected => EndpointView { connected: self.connected.push(conn), ..self },
            DialOutcome::Failed => self,
        }
    }

    /// The endpoint after warm connections and waiting requests were paired,
    /// oldest with oldest. A request in `cancelled` is dropped without
    /// consuming a connection.
    pub open spec fn drained(self, cancelled: Seq<u64>) -> EndpointView
        decreases self.dispatchees.len(),
    {
        if self.connected.len() == 0 || self.dispatchees.len() == 0 {
            self
        } else if cancelled.contains(self.dispatchees[0]) {
            EndpointView { dispatchees: self.dispatchees.drop_first(), ..self }.drained(cancelled)
        } else {
            EndpointView {
                dispatchees: self.dispatchees.drop_first(),
                ..self.after_handoff()
            }.drained(cancelled)
        }
    }

    /// The hand-offs that [`Self::drained`] decides on, in order.
    pub open spec fn drain_handoffs(self, cancelled: Seq<u64>) -> Seq<Handoff>
        decreases self.dispatchees.len(),
    {
        if self.connected.len() == 0 || self.dispatchees.len() == 0 {
            Seq::empty()
        } else if cancelled.contains(self.dispatchees[0]) {
            EndpointView { dispatchees: self.dispatchees.drop_first(), ..self }.drain_handoffs(
                cancelled,
            )
        } else {
            seq![
                Handoff {
                    conn: self.connected[0],
                    dispatchee: self.dispatchees[0],
                    peer_addr: self.peer_addr,
                },
            ] + EndpointView {
                dispatchees: self.dispatchees.drop_first(),
                ..self.after_handoff()
            }.drain_handoffs(cancelled)
        }
    }

    /// How many waiting requests [`Self::drained`] takes from the queue, to
    /// hand them a connection or to drop them.
    pub open spec fn drain_taken(self, cancelled: Seq<u64>) -> nat
        decreases self.dispatchees.len(),
    {
        if self.connected.len() == 0 || self.dispatchees.len() == 0 {
            0
        } else if cancelled.contains(self.dispatchees[0]) {
            1 + EndpointView { dispatchees: self.dispatchees.drop_first(), ..self }.drain_taken(
                cancelled,
            )
        } else {
            1 + EndpointView {
                dispatchees: self.dispatchees.drop_first(),
                ..self.after_handoff()
            }.drain_taken(cancelled)
        }
    }

    /// Where the outcome of connection `conn` is awaited: the first position
    /// of `conn` among the connections in use, if it is there.
    pub open spec fn awaits(self, conn: u64) -> Option<int> {
        if self.completing.contains(conn) {
            Some(
                choose|i: int|
                    0 <= i < self.completing.len() && self.completing[i] == conn && forall|j: int|
                        0 <= j < i ==> self.completing[j] != conn,
            )
        } else {
            None
        }
    }

    /// The endpoint after the outcome of connection `conn` arrived: the
    /// connection is no longer in use and the load goes down by one. An
    /// outcome for a connection that is not in use changes nothing.
    pub open spec fn released(self, conn: u64) -> EndpointView {
        match self.awaits(conn) {
            Some(i) => EndpointView {
                completing: self.completing.remove(i),
                load: self.load.spec_decremented(),
                ..self
            },
            None => self,
        }
    }
}

/// Pairing connections with requests leaves the rest of an endpoint alone:
/// its peer, its name, its weight and its dials in flight.
pub proof fn lemma_drained_keeps(e: EndpointView, cancelled: Seq<u64>)
    ensures
        e.drained(cancelled).peer_addr == e.peer_addr,
        e.drained(cancelled).dst_name == e.dst_name,
        e.drained(cancelled).weight == e.weight,
        e.drained(cancelled).connecting == e.connecting,
    decreases e.dispatchees.len(),
{
    if e.connected.len() == 0 || e.dispatchees.len() == 0 {
    } else if cancelled.contains(e.dispatchees[0]) {
        lemma_drained_keeps(EndpointView { dispatchees: e.dispatchees.drop_first(), ..e }, cancelled);
    } else {
        lemma_drained_keeps(
            EndpointView { dispatchees: e.dispatchees.drop_first(), ..e.after_handoff() },
            cancelled,
        );
    }
}

/// The first position at or before `k` where `conn` stands in `ids`, given
/// that it stands at `k`.
pub proof fn lemma_least_position(ids: Seq<u64>, conn: u64, k: int) -> (m: int)
    requires
        0 <= k < ids.len(),
        ids[k] == conn,
    ensures
        0 <= m <= k,
        ids[m] == conn,
        forall|j: int| 0 <= j < m ==> ids[j] != conn,
    decreases k,
{
    if exists|j: int| 0 <= j < k && ids[j] == conn {
        let j = choose|j: int| 0 <= j < k && ids[j] == conn;
        lemma_least_position(ids, conn, j)
    } else {
        k
    }
}

/// Where the outcome of a connection is awaited, the place where it is
/// awaited is well defined: the first place where the connection stands
/// among those in use.
pub proof fn lemma_awaits(e: EndpointView, conn: u64)
    ensures
        match e.awaits(conn) {
            Some(i) => {
                &&& 0 <= i < e.completing.len()
                &&& e.completing[i] == conn
                &&& forall|j: int| 0 <= j < i ==> e.completing[j] != conn
            },
            None => !e.completing.contains(conn),
        },
{
    if e.completing.contains(conn) {
        let k = choose|k: int| 0 <= k < e.completing.len() && e.completing[k] == conn;
        let m = lemma_least_position(e.completing, conn, k);
        assert(0 <= m < e.completing.len() && e.completing[m] == conn);
    }
}

/// Whether `id` occurs in `ids`.
pub fn contains_id(ids: &Vec<u64>, id: u64) -> (b: bool)
    ensures
        b == ids@.contains(id),
{
    let mut i: usize = 0;
    while i < ids.len()
        invariant
            i <= ids.len(),
            forall|j: int| 0 <= j < i ==> ids@[j] != id,
        decreases ids.len() - i,
    {
        if ids[i] == id {
            return true;
        }
        i += 1;
    }
    false
}

/// The identifiers in `queue`, front first.
fn copy_of(queue: &VecDeque<u64>) -> (ids: Vec<u64>)
    ensures
        ids@ == queue@,
{
    let mut ids: Vec<u64> = Vec::new();
    let mut i: usize = 0;
    while i < queue.len()
        invariant
            i <= queue.len(),
            ids@ == queue@.take(i as int),
        decreases queue.len() - i,
    {
        ids.push(queue[i]);
        proof {
            assert(queue@.take(i as int).push(queue@[i as int]) =~= queue@.take(i as int + 1));
        }
        i += 1;
    }
    proof {
        assert(queue@.take(queue.len() as int) =~= queue@);
    }
    ids
}

/// The record of one peer.
pub struct Endpoint {
    dst_name: String,
    peer_addr: PeerAddr,
    weight: u32,
    load: Load,
    connecting: VecDeque<u64>,
    connected: VecDeque<u64>,
    dispatchees: VecDeque<u64>,
    completing: VecDeque<u64>,
}

impl View for Endpoint {
    type V = EndpointView;

    closed spec fn view(&self) -> EndpointView {
        EndpointView {
            dst_name: self.dst_name@,
            peer_addr: self.peer_addr,
            weight: self.weight,
            load: self.load,
            connecting: self.connecting@,
            connected: self.connected@,
            dispatchees: self.dispatchees@,
            completing: self.completing@,
        }
    }
}

impl Endpoint {
    /// The record of a newly discovered peer: nothing in flight, nothing
    /// warm, nobody waiting, and a load that was never measured.
    pub fn new(dst: String, addr: PeerAddr, weight: u32) -> (ep: Endpoint)
        ensures
            ep@ == EndpointView::fresh(dst@, addr, weight),
    {
        Endpoint {
            dst_name: dst,
            peer_addr: addr,
            weight: weight,
            load: Load::Unmeasured,
            connecting: VecDeque::new(),
            connected: VecDeque::new(),
            dispatchees: VecDeque::new(),
            completing: VecDeque::new(),
        }
    }

    /// The name of the destination that this peer serves.
    pub fn dst_name(&self) -> (name: &String)
        ensures
            name@ == self@.dst_name,
    {
        &self.dst_name
    }

    /// The address of the peer.
    pub fn peer_addr(&self) -> (a: PeerAddr)
        ensures
            a == self@.peer_addr,
    {
        self.peer_addr
    }

    /// The weight last seen in a service-discovery update.
    pub fn weight(&self) -> (w: u32)
        ensures
            w == self@.weight,
    {
        self.weight
    }

    /// The load.
    pub fn load(&self) -> (l: Load)
        ensures
            l == self@.load,
    {
        self.load
    }

    /// Stores the weight last seen in a service-discovery update.
    pub fn set_weight(&mut self, weight: u32)
        ensures
            final(self)@ == old(self)@.with_weight(weight),
    {
        self.weight = weight;
    }

    /// The dials in flight, oldest first.
    pub fn connecting(&self) -> (ids: Vec<u64>)
        ensures
            ids@ == self@.connecting,
    {
        copy_of(&self.connecting)
    }

    /// The warm connections, oldest first.
    pub fn connected(&self) -> (ids: Vec<u64>)
        ensures
            ids@ == self@.connected,
    {
        copy_of(&self.connected)
    }

    /// The requests waiting for a connection, oldest first.
    pub fn dispatchees(&self) -> (ids: Vec<u64>)
        ensures
            ids@ == self@.dispatchees,
    {
        copy_of(&self.dispatchees)
    }

    /// The connections in use, in the order in which they were taken.
    pub fn completing(&self) -> (ids: Vec<u64>)
        ensures
            ids@ == self@.completing,
    {
        copy_of(&self.completing)
    }

    /// The number of dials in flight.
    pub fn pending(&self) -> (n: usize)
        ensures
            n == self@.connecting.len(),
    {
        self.connecting.len()
    }

    /// The number of warm connections.
    pub fn warm(&self) -> (n: usize)
        ensures
            n == self@.connected.len(),
    {
        self.connected.len()
    }

    /// The number of requests waiting for a connection.
    pub fn waiting(&self) -> (n: usize)
        ensures
            n == self@.dispatchees.len(),
    {
        self.dispatchees.len()
    }

    /// The number of connections in use.
    pub fn in_use(&self) -> (n: usize)
        ensures
            n == self@.completing.len(),
    {
        self.completing.len()
    }

    /// Whether no dial is in flight and no request waits.
    pub fn is_idle(&self) -> (b: bool)
        ensures
            b == self@.is_idle(),
    {
        self.connecting.len() == 0 && self.dispatchees.len() == 0
    }

    /// Books connection `conn` as in use by `dispatchee`: its outcome is
    /// awaited from now on, and the load goes up by one. Returns the
    /// hand-off to carry out.
    pub fn mk_ctx(&mut self, conn: u64, dispatchee: u64) -> (h: Handoff)
        ensures
            final(self)@ == old(self)@.with_ctx(conn),
            h == (Handoff { conn, dispatchee, peer_addr: old(self)@.peer_addr }),
    {
        self.completing.push_back(conn);
        self.load = self.load.incremented();
        Handoff { conn, dispatchee, peer_addr: self.peer_addr }
    }

    /// Takes a request for a connection. `live` says whether the request is
    /// still wanted, which decides whether handing it a connection succeeds.
    pub fn dispatch(&mut self, dispatchee: u64, live: bool) -> (h: Option<Handoff>)
        ensures
            final(self)@ == old(self)@.dispatched(dispatchee, live),
            h == old(self)@.handoff(dispatchee, live),
    {
        match self.connected.pop_front() {
            None => {
                self.dispatchees.push_back(dispatchee);
                None
            },
            Some(conn) => {
                if live {
                    Some(self.mk_ctx(conn, dispatchee))
                } else {
                    // The request is no longer wanted: the connection is
                    // saved for later, first in line as before.
                    proof {
                        assert(seq![conn] + old(self)@.connected.drop_first() =~= old(self)@.connected);
                    }
                    self.connected.push_front(conn);
                    None
                }
            },
        }
    }

    /// Takes the reports of a poll of the dials in flight: the dials in
    /// `ready` become warm connections, those in `failed` are forgotten, the
    /// others stay in flight. Returns the number of failed dials.
    pub fn advance(&mut self, ready: &Vec<u64>, failed: &Vec<u64>) -> (failures: usize)
        ensures
            final(self)@ == old(self)@.advanced(ready@, failed@),
            failures == old(self)@.failures(ready@, failed@),
    {
        let ghost start = self@;
        let total: usize = self.connecting.len();
        let mut failures: usize = 0;
        let mut i: usize = 0;
        proof {
            reveal(Seq::filter);
            assert(start.connecting.take(0) =~= Seq::empty());
            assert(start.connecting.skip(0) =~= start.connecting);
            assert(start.connecting + Seq::<u64>::empty() =~= start.connecting);
            assert(start.connected + Seq::<u64>::empty() =~= start.connected);
        }
        while i < total
            invariant
                i <= total,
                total == start.connecting.len(),
                failures <= i,
                failures == start.connecting.take(i as int).filter(is_failed(ready@, failed@)).len(),
                self@ == (EndpointView {
                    connecting: start.connecting.skip(i as int) + start.connecting.take(i as int).filter(
                        is_pending(ready@, failed@),
                    ),
                    connected: start.connected + start.connecting.take(i as int).filter(
                        is_ready(ready@),
                    ),
                    ..start
                }),
            decreases total - i,
        {
            let ghost before = self@;
            let ghost done = start.connecting.take(i as int);
            proof {
                assert(start.connecting.skip(i as int).len() > 0);
                assert(before.connecting[0] == start.connecting[i as int]);
                lemma_filter_step(start.connecting, is_failed(ready@, failed@), i as int);
                lemma_filter_step(start.connecting, is_pending(ready@, failed@), i as int);
                lemma_filter_step(start.connecting, is_ready(ready@), i as int);
            }
            let conn: u64 = self.connecting.pop_front().unwrap();
            proof {
                assert(self.connecting@ =~= start.connecting.skip(i as int + 1) + done.filter(
                    is_pending(ready@, failed@),
                ));
            }
            if contains_id(ready, conn) {
                self.connected.push_back(conn);
                proof {
                    assert(self.connected@ =~= start.connected + done.filter(is_ready(ready@)).push(
                        conn,
                    ));
                }
            } else if contains_id(failed, conn) {
                failures += 1;
            } else {
                self.connecting.push_back(conn);
                proof {
                    assert(self.connecting@ =~= start.connecting.skip(i as int + 1) + done.filter(
                        is_pending(ready@, failed@),
                    ).push(conn));
                }
            }
            i += 1;
        }
        proof {
            assert(start.connecting.take(total as int) =~= start.connecting);
            assert(self.connecting@ =~= start.connecting.filter(is_pending(ready@, failed@)));
        }
        failures
    }

    /// Pairs warm connections with waiting requests, oldest with oldest,
    /// and appends the hand-offs to `out`. A request in `cancelled` is
    /// dropped; the connection it would have taken stays first.
    pub fn drain(&mut self, cancelled: &Vec<u64>, out: &mut Vec<Handoff>)
        ensures
            final(self)@ == old(self)@.drained(cancelled@),
            final(out)@ == old(out)@ + old(self)@.drain_handoffs(cancelled@),
    {
        let ghost start = self@;
        let ghost out0 = out@;
        proof {
            assert(out0 + start.drain_handoffs(cancelled@) =~= out@ + self@.drain_handoffs(cancelled@));
        }
        while self.connected.len() > 0 && self.dispatchees.len() > 0
            invariant
                self@.drained(cancelled@) == start.drained(cancelled@),
                out@ + self@.drain_handoffs(cancelled@) == out0 + start.drain_handoffs(cancelled@),
            decreases self.dispatchees.len(),
        {
            let ghost before = self@;
            let ghost out_before = out@;
            let dispatchee: u64 = self.dispatchees.pop_front().unwrap();
            proof {
                assert(self.dispatchees@ =~= before.dispatchees.drop_first());
            }
            if !contains_id(cancelled, dispatchee) {
                let conn: u64 = self.connected.pop_front().unwrap();
                let h = self.mk_ctx(conn, dispatchee);
                out.push(h);
                proof {
                    assert(self@ == (EndpointView {
                        dispatchees: before.dispatchees.drop_first(),
                        ..before.after_handoff()
                    }));
                    assert(out@ + self@.drain_handoffs(cancelled@) =~= out_before + (seq![h]
                        + self@.drain_handoffs(cancelled@)));
                }
            } else {
                proof {
                    assert(self@ == (EndpointView {
                        dispatchees: before.dispatchees.drop_first(),
                        ..before
                    }));
                }
            }
        }
        proof {
            assert(out@ + Seq::<Handoff>::empty() =~= out@);
        }
    }

    /// Takes the outcome of connection `conn`, which the forwarding of its
    /// traffic produced when it ended. Returns whether this endpoint was
    /// waiting for it.
    pub fn release(&mut self, conn: u64) -> (known: bool)
        ensures
            final(self)@ == old(self)@.released(conn),
            known == old(self)@.completing.contains(conn),
    {
        let mut i: usize = 0;
        while i < self.completing.len()
            invariant
                i <= self.completing.len(),
                self@ == old(self)@,
                forall|j: int| 0 <= j < i ==> self.completing@[j] != conn,
            decreases self.completing.len() - i,
        {
            if self.completing[i] == conn {
                proof {
                    let at = self@.awaits(conn)->0;
                    assert(self@.completing.contains(conn));
                    assert(at == i) by {
                        if at < i {
                        } else if i < at {
                        }
                    }
                }
                let _ = self.completing.remove(i);
                self.load = self.load.decremented();
                return true;
            }
            i += 1;
        }
        false
    }

    /// Records the outcome of the first poll of a dial just begun.
    pub fn dialed(&mut self, conn: u64, outcome: DialOutcome)
        ensures
            final(self)@ == old(self)@.dialed(conn, outcome),
    {
        match outcome {
            DialOutcome::Pending => self.connecting.push_back(conn),
            DialOutcome::Connected => self.connected.push_back(conn),
            DialOutcome::Failed => {},
        }
    }
}

} // verus!
