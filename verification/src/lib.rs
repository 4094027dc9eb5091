//! The core of a TCP load balancer for one logical destination.
//!
//! The balancer keeps a table of endpoints fed by service discovery, keeps a
//! minimum number of connections warm, picks an endpoint for each request by
//! the power of two choices, and follows each connection until it is
//! released.
//!
//! Nothing here performs I/O. Dials, connections and waiting requests are
//! known by the identifiers that the caller gives them; the caller owns the
//! sockets, the futures and the channels. On each wake it tells the manager
//! what happened outside and carries out what the manager decides:
//!
//! 1. [`lb::manager::Managing::poll`] takes the requests that have arrived,
//!    the requests that were given up, what service discovery returned and
//!    the dials that have ended. It answers with the hand-offs to make and
//!    with a poll of the connections that is ready for the top-up.
//! 2. While [`lb::manager::Manager::next_dial`] names a peer, the caller
//!    begins a dial to it, polls it once and reports the outcome with
//!    [`lb::manager::Manager::dialed`].
//! 3. [`lb::manager::Manager::finish_poll`] pairs warm connections with
//!    waiting requests and answers with more hand-offs and the counts.
//! 4. When the use of a connection ends, [`lb::manager::Manager::release`]
//!    takes note.
//!
//! The contracts are stated over [`lb::model::ManagerView`] and
//! [`lb::endpoint::EndpointView`]; what holds of every table and every poll
//! is proved in [`lb::laws`].
pub mod lb;
