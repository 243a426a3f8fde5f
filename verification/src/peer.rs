//! The ring participant's state machine.
//!
//! A peer joins via the coordinator, awaits a `StartFlag`, and then runs
//! three concurrently scheduled duties over one shared state cell: a
//! control-channel reader, a predecessor reader, and a forwarder. The duties
//! here are the pure transitions of that state machine; the driver that owns
//! the sockets performs each returned action (send a line, wake the
//! forwarder) and hands back each event (a received line, a wake).

use crate::error::RunError;
use crate::message::HotPotato;
use crate::message::HotPotatoState;
use crate::message::StartFlag;
use crate::message::bool_json;
use crate::message::parse_bool_json;
use vstd::prelude::*;

verus! {

/// A ring participant: its fixed addresses and the shared token state cell
/// that its three duties mutate under one exclusive lock.
#[derive(Clone)]
pub struct Peer {
    /// Where this peer listens for its predecessor.
    pub address: String,
    /// The coordinator's control-channel address.
    pub server_address: String,
    /// The successor's listening address.
    pub next_peer_address: String,
    /// What this peer currently holds.
    pub hot_potato_state: HotPotatoState,
}

impl Peer {
    /// The immutable part of a peer: everything but the token state.
    pub open spec fn identity(self) -> (Seq<char>, Seq<char>, Seq<char>) {
        (self.address@, self.server_address@, self.next_peer_address@)
    }

    /// A fresh peer holds nothing.
    pub fn new(address: String, server_address: String, next_peer_address: String) -> (r: Self)
        ensures
            r.address@ == address@,
            r.server_address@ == server_address@,
            r.next_peer_address@ == next_peer_address@,
            r.hot_potato_state == HotPotatoState::NotHolding,
    {
        Self { address, server_address, next_peer_address, hot_potato_state: HotPotatoState::NotHolding }
    }

    /// Bootstrap step: the first control-channel line must decode to a
    /// `StartFlag`; a missing line (stream ended) or a malformed one is a
    /// run-level protocol violation.
    pub fn expect_start_flag(line: Option<&str>) -> (r: Result<StartFlag, RunError>)
        ensures
            r == match line {
                Some(l) => match parse_bool_json(l@) {
                    Some(b) => Ok::<StartFlag, RunError>(StartFlag(b)),
                    None => Err::<StartFlag, RunError>(RunError::Protocol),
                },
                None => Err::<StartFlag, RunError>(RunError::Protocol),
            },
    {
        match line {
            Some(l) => match StartFlag::from_json_string(l) {
                Ok(flag) => Ok(flag),
                Err(_) => Err(RunError::Protocol),
            },
            None => Err(RunError::Protocol),
        }
    }

    /// Reader duty, shared by the control-channel reader and the predecessor
    /// reader: a line that decodes to a token frame takes the state to
    /// `Holding` and asks the driver to wake the forwarder; a malformed line
    /// is dropped with no state transition, and later lines keep being
    /// processed.
    pub fn receive_token_line(&mut self, line: &str) -> (wake: bool)
        ensures
            final(self).identity() == old(self).identity(),
            match parse_bool_json(line@) {
                Some(b) => wake && final(self).hot_potato_state == HotPotatoState::Holding(
                    HotPotato(b),
                ),
                None => !wake && final(self).hot_potato_state == old(self).hot_potato_state,
            },
    {
        match HotPotato::from_json_string(line) {
            Ok(hot_potato) => {
                self.hot_potato_state = HotPotatoState::Holding(hot_potato);
                true
            },
            Err(_) => false,
        }
    }

    /// Forwarder duty, run on each wake of the token notification: when
    /// holding, hand out the encoded token line for the successor and revert
    /// to `NotHolding`; when not holding, do nothing. The driver observes the
    /// configured hold delay before writing the returned line.
    pub fn throw_hot_potato(&mut self) -> (line: Option<String>)
        ensures
            final(self).identity() == old(self).identity(),
            match old(self).hot_potato_state {
                HotPotatoState::Holding(t) => {
                    &&& final(self).hot_potato_state == HotPotatoState::NotHolding
                    &&& line matches Some(l) && l@ == bool_json(t.0)
                },
                HotPotatoState::NotHolding => {
                    &&& final(self).hot_potato_state == old(self).hot_potato_state
                    &&& line is None
                },
            },
    {
        match &self.hot_potato_state {
            HotPotatoState::Holding(hot_potato) => {
                let encoded = hot_potato.to_json_string();
                self.hot_potato_state = HotPotatoState::NotHolding;
                Some(encoded)
            },
            HotPotatoState::NotHolding => None,
        }
    }
}

} // verus!
