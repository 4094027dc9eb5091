//! One poll of the connections: its counts, and how far its top-up has come.
use super::endpoint::DialOutcome;
use super::endpoint::EndpointView;
use vstd::prelude::*;

verus! {

/// The count `n`, as far as a `usize` holds it.
pub open spec fn clip(n: int) -> usize {
    if n >= usize::MAX {
        usize::MAX
    } else if n <= 0 {
        0
    } else {
        n as usize
    }
}

/// The number of dials in flight on all the endpoints of `s`.
pub open spec fn total_pending(s: Seq<EndpointView>) -> nat
    decreases s.len(),
{
    if s.len() == 0 {
        0
    } else {
        total_pending(s.drop_last()) + s.last().connecting.len()
    }
}

/// The number of warm connections on all the endpoints of `s`.
pub open spec fn total_connected(s: Seq<EndpointView>) -> nat
    decreases s.len(),
{
    if s.len() == 0 {
        0
    } else {
        total_connected(s.drop_last()) + s.last().connected.len()
    }
}

/// The number of dials in flight on the endpoints of `s` that a poll with
/// these reports finds failed.
pub open spec fn total_failures(s: Seq<EndpointView>, ready: Seq<u64>, failed: Seq<u64>) -> nat
    decreases s.len(),
{
    if s.len() == 0 {
        0
    } else {
        total_failures(s.drop_last(), ready, failed) + s.last().failures(ready, failed)
    }
}

/// What one poll of the connections found and did, for tracing.
#[derive(Clone, Copy, Debug, PartialEq, Eq, Structural)]
pub struct ConnectionPollSummary {
    /// Dials in flight.
    pub pending: usize,
    /// Warm connections.
    pub connected: usize,
    /// Connections handed to waiting requests.
    pub dispatched: usize,
    /// Dials that failed.
    pub failed: usize,
}

impl Default for ConnectionPollSummary {
    fn default() -> (s: Self)
        ensures
            s == (ConnectionPollSummary { pending: 0, connected: 0, dispatched: 0, failed: 0 }),
    {
        ConnectionPollSummary { pending: 0, connected: 0, dispatched: 0, failed: 0 }
    }
}

impl ConnectionPollSummary {
    /// The connections that count towards the minimum: warm or in the making.
    pub open spec fn total(self) -> int {
        self.connected + self.pending
    }

    /// The summary with one more dial counted by its outcome.
    pub open spec fn counting(self, outcome: DialOutcome) -> ConnectionPollSummary {
        match outcome {
            DialOutcome::Pending => ConnectionPollSummary { pending: clip(self.pending + 1), ..self },
            DialOutcome::Connected => ConnectionPollSummary {
                connected: clip(self.connected + 1),
                ..self
            },
            DialOutcome::Failed => ConnectionPollSummary { failed: clip(self.failed + 1), ..self },
        }
    }

    /// Counts one more dial by its outcome.
    pub fn count(&mut self, outcome: DialOutcome)
        ensures
            *final(self) == old(self).counting(outcome),
    {
        match outcome {
            DialOutcome::Pending => {
                self.pending = self.pending.saturating_add(1);
            },
            DialOutcome::Connected => {
                self.connected = self.connected.saturating_add(1);
            },
            DialOutcome::Failed => {
                self.failed = self.failed.saturating_add(1);
            },
        }
    }
}

/// A poll of the connections in progress: the counts so far and the place
/// of the top-up in its round over the available endpoints.
#[derive(Clone, Copy, Debug, PartialEq, Eq, Structural)]
pub struct ConnectionPoll {
    pub summary: ConnectionPollSummary,
    /// The position of the endpoint that is dialed next in this round.
    pub cursor: usize,
    /// Whether a dial of this round is warm or in flight.
    pub accepted: bool,
    /// Whether a dial of this top-up failed.
    pub refused: bool,
    /// Whether the outcome of a dial is awaited.
    pub awaiting: bool,
}

impl ConnectionPoll {
    /// The poll as the top-up begins.
    pub open spec fn begun(summary: ConnectionPollSummary) -> ConnectionPoll {
        ConnectionPoll { summary, cursor: 0, accepted: false, refused: false, awaiting: false }
    }

    /// A round that has dialed has seen a dial accepted or refused.
    pub open spec fn consistent(self) -> bool {
        self.cursor > 0 ==> self.accepted || self.refused
    }

    /// The poll after the awaited outcome came in.
    pub open spec fn after_dial(self, outcome: DialOutcome) -> ConnectionPoll {
        ConnectionPoll {
            summary: self.summary.counting(outcome),
            cursor: clip(self.cursor + 1),
            accepted: self.accepted || outcome != DialOutcome::Failed,
            refused: self.refused || outcome == DialOutcome::Failed,
            awaiting: false,
        }
    }
}

/// The dials in flight, counted one endpoint further.
pub proof fn lemma_totals_step(s: Seq<EndpointView>, i: int)
    requires
        0 <= i < s.len(),
    ensures
        total_pending(s.take(i + 1)) == total_pending(s.take(i)) + s[i].connecting.len(),
        total_connected(s.take(i + 1)) == total_connected(s.take(i)) + s[i].connected.len(),
{
    assert(s.take(i + 1).drop_last() =~= s.take(i));
}

/// The failed dials, counted one endpoint further.
pub proof fn lemma_failures_step(s: Seq<EndpointView>, ready: Seq<u64>, failed: Seq<u64>, i: int)
    requires
        0 <= i < s.len(),
    ensures
        total_failures(s.take(i + 1), ready, failed) == total_failures(s.take(i), ready, failed)
            + s[i].failures(ready, failed),
{
    assert(s.take(i + 1).drop_last() =~= s.take(i));
}

/// What the change of one endpoint does to the totals.
pub proof fn lemma_totals_update(s: Seq<EndpointView>, i: int, e: EndpointView)
    requires
        0 <= i < s.len(),
    ensures
        total_pending(s.update(i, e)) == total_pending(s) - s[i].connecting.len() + e.connecting.len(),
        total_connected(s.update(i, e)) == total_connected(s) - s[i].connected.len()
            + e.connected.len(),
    decreases s.len(),
{
    if i == s.len() - 1 {
        assert(s.update(i, e).drop_last() =~= s.drop_last());
    } else {
        lemma_totals_update(s.drop_last(), i, e);
        assert(s.update(i, e).drop_last() =~= s.drop_last().update(i, e));
    }
}

} // verus!
