//! The fully wired ring, as a trace model.
//!
//! A state is the token state of each of the `n` peers. One event, a relay
//! by peer `i`, is the serialized handoff the duties implement: the holder's
//! forwarder emits the encoded token (`Peer::throw_hot_potato`), the line
//! crosses the wire, and the successor's predecessor reader absorbs it
//! (`Peer::receive_token_line`) — exact by the codec round trip. A relay is
//! enabled only at a peer that holds the token, which is what the exclusive
//! lock around each state cell and the latched wake guarantee.

use crate::message::HotPotato;
use crate::message::HotPotatoState;
use vstd::arithmetic::div_mod::lemma_mod_add_multiples_vanish;
use vstd::arithmetic::div_mod::lemma_small_mod;
use vstd::prelude::*;

verus! {

/// The index of the successor of peer `i` in a ring of `n` peers.
pub open spec fn succ_idx(n: int, i: int) -> int {
    if i + 1 == n {
        0
    } else {
        i + 1
    }
}

/// A ring of `n` peers in which peer `i` alone holds token `t`.
pub open spec fn lone_holder(n: nat, i: int, t: HotPotato) -> Seq<HotPotatoState> {
    Seq::new(
        n,
        |j: int|
            if j == i {
                HotPotatoState::Holding(t)
            } else {
                HotPotatoState::NotHolding
            },
    )
}

/// How many peers hold a token.
pub open spec fn holding_count(s: Seq<HotPotatoState>) -> nat
    decreases s.len(),
{
    if s.len() == 0 {
        0
    } else {
        holding_count(s.drop_last()) + (if s.last() is Holding {
            1nat
        } else {
            0nat
        })
    }
}

/// A relay by peer `i` can happen only while `i` holds the token.
pub open spec fn relay_enabled(s: Seq<HotPotatoState>, i: int) -> bool {
    0 <= i < s.len() && s[i] is Holding
}

/// The effect of a relay: the sender reverts to `NotHolding` and its
/// successor now holds the very token the sender held.
pub open spec fn relay_step(s: Seq<HotPotatoState>, i: int) -> Seq<HotPotatoState> {
    s.update(i, HotPotatoState::NotHolding).update(
        succ_idx(s.len() as int, i),
        HotPotatoState::Holding(s[i]->Holding_0),
    )
}

/// Whether every relay of the run is enabled in the state it meets.
pub open spec fn ring_valid(s: Seq<HotPotatoState>, relays: Seq<int>) -> bool
    decreases relays.len(),
{
    relays.len() == 0 || (relay_enabled(s, relays[0]) && ring_valid(
        relay_step(s, relays[0]),
        relays.drop_first(),
    ))
}

/// The ring state a run reaches.
pub open spec fn ring_run(s: Seq<HotPotatoState>, relays: Seq<int>) -> Seq<HotPotatoState>
    decreases relays.len(),
{
    if relays.len() == 0 {
        s
    } else {
        ring_run(relay_step(s, relays[0]), relays.drop_first())
    }
}

/// Stepping the successor index `k + 1` times lands where stepping it once
/// and then `k` times does, written with `%`.
proof fn lemma_succ_idx_mod(n: int, i: int, k: int)
    requires
        n >= 1,
        0 <= i < n,
        k >= 0,
    ensures
        (succ_idx(n, i) + k) % n == (i + 1 + k) % n,
{
    if i + 1 == n {
        lemma_mod_add_multiples_vanish(k, n);
    }
}

/// From a lone holder at `i`, any valid run relays the token strictly along
/// the ring: the `j`-th relay is performed by peer `(i + j) mod n`, and the
/// run ends with the same token alone at peer `(i + len) mod n`.
pub proof fn lemma_ring_run_from(n: nat, i: int, t: HotPotato, relays: Seq<int>)
    requires
        n >= 1,
        0 <= i < n,
        ring_valid(lone_holder(n, i, t), relays),
    ensures
        ring_run(lone_holder(n, i, t), relays) == lone_holder(
            n,
            (i + relays.len() as int) % (n as int),
            t,
        ),
        forall|j: int| 0 <= j < relays.len() ==> relays[j] == (i + j) % (n as int),
    decreases relays.len(),
{
    let s = lone_holder(n, i, t);
    if relays.len() == 0 {
        lemma_small_mod(i as nat, n);
        assert(ring_run(s, relays) =~= lone_holder(n, (i + 0) % (n as int), t));
    } else {
        let e = relays[0];
        assert(s[e] is Holding ==> e == i);
        let succ = succ_idx(n as int, i);
        assert(relay_step(s, i) =~= lone_holder(n, succ, t));
        lemma_ring_run_from(n, succ, t, relays.drop_first());
        lemma_succ_idx_mod(n as int, i, relays.len() - 1);
        lemma_small_mod(i as nat, n);
        assert forall|j: int| 0 < j < relays.len() implies relays[j] == (i + j) % (n as int) by {
            assert(relays.drop_first()[j - 1] == (succ + (j - 1)) % (n as int));
            lemma_succ_idx_mod(n as int, i, j - 1);
        }
    }
}

/// Law (circulation order, no loss, no duplication, no overtaking): in a
/// fully wired ring of `n` peers whose token starts alone at peer 0, the
/// `j`-th relay of any valid run is performed by peer `j mod n` — so the
/// token is observed at peers 1, 2, …, n-1, 0, … in that cyclic order,
/// exactly once per lap — and afterwards the same token sits alone at peer
/// `len mod n`.
pub proof fn lemma_ring_circulation(n: nat, t: HotPotato, relays: Seq<int>)
    requires
        n >= 2,
        ring_valid(lone_holder(n, 0, t), relays),
    ensures
        ring_run(lone_holder(n, 0, t), relays) == lone_holder(
            n,
            (relays.len() as int) % (n as int),
            t,
        ),
        forall|j: int| 0 <= j < relays.len() ==> relays[j] == j % (n as int),
{
    lemma_ring_run_from(n, 0, t, relays);
}

/// A lone holder inside the ring counts as one; one outside as none.
proof fn lemma_lone_holder_count(n: nat, i: int, t: HotPotato)
    ensures
        holding_count(lone_holder(n, i, t)) == if 0 <= i < n {
            1nat
        } else {
            0nat
        },
    decreases n,
{
    if n > 0 {
        assert(lone_holder(n, i, t).drop_last() =~= lone_holder((n - 1) as nat, i, t));
        lemma_lone_holder_count((n - 1) as nat, i, t);
    }
}

/// Law (single token): at every instant of a valid run from a lone holder,
/// exactly one peer ring-wide holds the token — instantiate `relays` with
/// every prefix of a run to cover each instant.
pub proof fn lemma_single_holder(n: nat, t: HotPotato, relays: Seq<int>)
    requires
        n >= 1,
        ring_valid(lone_holder(n, 0, t), relays),
    ensures
        holding_count(ring_run(lone_holder(n, 0, t), relays)) == 1,
{
    lemma_ring_run_from(n, 0, t, relays);
    lemma_lone_holder_count(n, (relays.len() as int) % (n as int), t);
    vstd::arithmetic::div_mod::lemma_mod_bound(relays.len() as int, n as int);
}

} // verus!
