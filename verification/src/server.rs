//! The rendezvous coordinator.
//!
//! The coordinator admits exactly `number_of_peers` connections, holds each
//! handler at a single-use barrier until all have arrived, then releases them
//! simultaneously. Every released handler sends its peer a `StartFlag`
//! frame; exactly one handler — the first to take the run-scoped grant —
//! additionally sends a second `StartFlag`, designating its peer as the
//! initial token holder. The driver owns the listener and the lock; the
//! decisions live here.

use crate::message::StartFlag;
use crate::message::bool_json;
use vstd::prelude::*;

verus! {

/// The coordinator's configuration: where to listen and how many peers make
/// a full ring.
#[derive(Clone)]
pub struct Server {
    pub own_address: String,
    pub number_of_peers: usize,
}

impl Server {
    pub fn new(own_address: String, number_of_peers: usize) -> (r: Self)
        ensures
            r.own_address@ == own_address@,
            r.number_of_peers == number_of_peers,
    {
        Self { own_address, number_of_peers }
    }
}

/// The shared bootstrap state of one coordinator run: the rendezvous count
/// and the initial-token grant. Fresh for every run, destroyed after it.
pub struct Bootstrap {
    /// How many peers make the barrier full.
    pub number_of_peers: usize,
    /// How many handlers have arrived at the barrier.
    pub arrived: usize,
    /// True until one handler consumes the grant to send the initial token.
    pub starts_with_hot_potato: bool,
}

impl Bootstrap {
    /// A fresh run: nobody has arrived, the grant is intact.
    pub fn new(number_of_peers: usize) -> (r: Self)
        ensures
            r.number_of_peers == number_of_peers,
            r.arrived == 0,
            r.starts_with_hot_potato,
    {
        Self { number_of_peers, arrived: 0, starts_with_hot_potato: true }
    }

    /// A handler arrives at the barrier. Callers admit at most
    /// `number_of_peers` connections into one run; the excess never arrive.
    pub fn arrive(&mut self)
        requires
            old(self).arrived < old(self).number_of_peers,
        ensures
            final(self).number_of_peers == old(self).number_of_peers,
            final(self).arrived == old(self).arrived + 1,
            final(self).starts_with_hot_potato == old(self).starts_with_hot_potato,
    {
        self.arrived = self.arrived + 1;
    }

    /// Whether the barrier releases its waiters: true exactly once all
    /// `number_of_peers` handlers have arrived.
    pub fn released(&self) -> (r: bool)
        ensures
            r == (self.arrived == self.number_of_peers),
    {
        self.arrived == self.number_of_peers
    }

    /// The signalling stage one released handler runs under the shared lock:
    /// every handler sends a `StartFlag` line; the handler that finds the
    /// grant intact clears it and also sends the initial-token line. All
    /// later handlers find the grant cleared and send nothing further.
    pub fn handler_signals(&mut self) -> (lines: (String, Option<String>))
        requires
            old(self).arrived == old(self).number_of_peers,
        ensures
            final(self).number_of_peers == old(self).number_of_peers,
            final(self).arrived == old(self).arrived,
            !final(self).starts_with_hot_potato,
            lines.0@ == bool_json(true),
            match lines.1 {
                Some(l) => old(self).starts_with_hot_potato && l@ == bool_json(true),
                None => !old(self).starts_with_hot_potato,
            },
    {
        let start_line = StartFlag(true).to_json_string();
        let token_line = if self.starts_with_hot_potato {
            self.starts_with_hot_potato = false;
            Some(StartFlag(true).to_json_string())
        } else {
            None
        };
        (start_line, token_line)
    }
}

/// One atomic step of a coordinator run, for stating the bootstrap laws.
pub enum CoordEvent {
    /// A connection is accepted and its handler arrives at the barrier.
    Arrive,
    /// A released handler runs its signalling stage under the shared lock.
    Signal,
}

/// Abstract state of one coordinator run: the bootstrap cell together with
/// counters of the frames the handlers have sent so far.
pub struct CoordModel {
    pub number_of_peers: nat,
    pub arrived: nat,
    pub starts_with_hot_potato: bool,
    /// How many handlers have sent their (first) `StartFlag`.
    pub starts_sent: nat,
    /// How many initial-token frames have been sent.
    pub tokens_sent: nat,
}

/// A fresh coordinator run for `n` peers.
pub open spec fn coord_init(n: nat) -> CoordModel {
    CoordModel {
        number_of_peers: n,
        arrived: 0,
        starts_with_hot_potato: true,
        starts_sent: 0,
        tokens_sent: 0,
    }
}

/// When an event can happen: arrivals only below the quota, signalling only
/// once the barrier is full — no waiter observes release before the Nth
/// arrival.
pub open spec fn coord_enabled(s: CoordModel, e: CoordEvent) -> bool {
    match e {
        CoordEvent::Arrive => s.arrived < s.number_of_peers,
        CoordEvent::Signal => s.arrived == s.number_of_peers,
    }
}

/// The effect of an event, mirroring `Bootstrap::arrive` and
/// `Bootstrap::handler_signals`.
pub open spec fn coord_step(s: CoordModel, e: CoordEvent) -> CoordModel {
    match e {
        CoordEvent::Arrive => CoordModel { arrived: s.arrived + 1, ..s },
        CoordEvent::Signal => CoordModel {
            starts_with_hot_potato: false,
            starts_sent: s.starts_sent + 1,
            tokens_sent: s.tokens_sent + if s.starts_with_hot_potato {
                1nat
            } else {
                0nat
            },
            ..s
        },
    }
}

/// Whether every event of the run is enabled in the state it meets.
pub open spec fn coord_valid(s: CoordModel, evs: Seq<CoordEvent>) -> bool
    decreases evs.len(),
{
    evs.len() == 0 || (coord_enabled(s, evs[0]) && coord_valid(coord_step(s, evs[0]), evs.drop_first()))
}

/// The state a run reaches.
pub open spec fn coord_run(s: CoordModel, evs: Seq<CoordEvent>) -> CoordModel
    decreases evs.len(),
{
    if evs.len() == 0 {
        s
    } else {
        coord_run(coord_step(s, evs[0]), evs.drop_first())
    }
}

/// What holds of every reachable state of a coordinator run.
pub open spec fn coord_inv(s: CoordModel) -> bool {
    &&& s.arrived <= s.number_of_peers
    &&& (s.starts_sent > 0 ==> s.arrived == s.number_of_peers)
    &&& (s.starts_sent > 0 ==> !s.starts_with_hot_potato)
    &&& s.tokens_sent + (if s.starts_with_hot_potato {
        1nat
    } else {
        0nat
    }) == 1
}

/// The invariant holds initially and every step preserves it.
pub proof fn lemma_coord_run_inv(s: CoordModel, evs: Seq<CoordEvent>)
    requires
        coord_inv(s),
        coord_valid(s, evs),
    ensures
        coord_inv(coord_run(s, evs)),
        coord_run(s, evs).number_of_peers == s.number_of_peers,
    decreases evs.len(),
{
    if evs.len() > 0 {
        lemma_coord_run_inv(coord_step(s, evs[0]), evs.drop_first());
    }
}

/// Law (barrier correctness): in any valid coordinator run for `n` peers, as
/// soon as any handler has sent a `StartFlag`, all `n` connections have been
/// accepted — no frame leaves before the Nth arrival. Instantiating `evs`
/// with every prefix of a run gives the claim at every instant.
pub proof fn lemma_no_start_before_full_barrier(n: nat, evs: Seq<CoordEvent>)
    requires
        coord_valid(coord_init(n), evs),
        coord_run(coord_init(n), evs).starts_sent > 0,
    ensures
        coord_run(coord_init(n), evs).arrived == n,
{
    lemma_coord_run_inv(coord_init(n), evs);
}

/// Law (exactly-once assignment): in any valid coordinator run, never more
/// than one initial-token frame is sent, and once any handler has signalled
/// — in whatever order the handlers raced to the lock — exactly one has
/// been sent.
pub proof fn lemma_exactly_one_initial_token(n: nat, evs: Seq<CoordEvent>)
    requires
        coord_valid(coord_init(n), evs),
    ensures
        coord_run(coord_init(n), evs).tokens_sent <= 1,
        coord_run(coord_init(n), evs).starts_sent > 0 ==> coord_run(
            coord_init(n),
            evs,
        ).tokens_sent == 1,
{
    lemma_coord_run_inv(coord_init(n), evs);
}

} // verus!
