//! What holds of the bus whatever events come.

use crate::bus::model::{
    accepted, all_serving, call_timeout_turn, call_turn, claim_place, closes, connect_turn,
    disconnected_turn, dispatch, effects_turn, ensured_turn, exited_turn, hang_ups, hung_up, idle,
    other_calls, other_claims, other_sockets, other_wickets, query_turn, rechecks, response_turn,
    routed_turn, running, running_place, screenshot_turn, serving, socket, socket_place,
    spawn_failed_turn, spawn_timeout_turn, stash, start_wicket, steered_turn, tick_turn, wicket,
    wicket_place, with_wicket, without_client, ActionV, BusV, PendingV, ResultV, RunningV, SocketV,
    ToolCallV, WicketState, WicketV,
};
use crate::bus::tools::ListedV;
use crate::json::Val;
use crate::screenshot::model::{
    disconnect_step, end_step, expire_step, packet_step, routed, CallV, EffectV, Sizes,
};
use vstd::prelude::*;

verus! {

/// No two sockets have the same identity, and none has one that is still to come.
pub open spec fn sockets_tidy(sockets: Seq<SocketV>, next_client: u64) -> bool {
    &&& forall|i: int, j: int|
        0 <= i < j < sockets.len() ==> (#[trigger] sockets[i]).id != (#[trigger] sockets[j]).id
    &&& forall|i: int| 0 <= i < sockets.len() ==> (#[trigger] sockets[i]).id < next_client
}

/// No call is claimed twice.
pub open spec fn claims_tidy(claims: Seq<ToolCallV>) -> bool {
    forall|i: int, j: int|
        0 <= i < j < claims.len() ==> (#[trigger] claims[i]).call_id != (
        #[trigger] claims[j]).call_id
}

/// No call is dispatched twice.
pub open spec fn calls_tidy(calls: Seq<RunningV>) -> bool {
    forall|i: int, j: int|
        0 <= i < j < calls.len() ==> (#[trigger] calls[i]).call.call_id != (
        #[trigger] calls[j]).call.call_id
}

/// No host has two Wickets, and things wait only for a Wicket that is starting.
pub open spec fn wickets_tidy(wickets: Seq<WicketV>) -> bool {
    &&& forall|i: int, j: int|
        0 <= i < j < wickets.len() ==> (#[trigger] wickets[i]).host != (#[trigger] wickets[j]).host
    &&& forall|i: int|
        0 <= i < wickets.len() ==> (#[trigger] wickets[i]).state == WicketState::Starting
            || wickets[i].stashed.len() == 0
}

/// The bus is tidy.
pub open spec fn tidy(bus: BusV) -> bool {
    &&& sockets_tidy(bus.sockets, bus.next_client)
    &&& claims_tidy(bus.claims)
    &&& calls_tidy(bus.calls)
    &&& wickets_tidy(bus.wickets)
}

// ---------------------------------------------------------------------------
// Places
// ---------------------------------------------------------------------------

pub(crate) proof fn lemma_claim_place(claims: Seq<ToolCallV>, id: Seq<char>)
    ensures
        match claim_place(claims, id) {
            Some(i) => 0 <= i < claims.len() && claims[i].call_id == id,
            None => forall|i: int| 0 <= i < claims.len() ==> (#[trigger] claims[i]).call_id != id,
        },
    decreases claims.len(),
{
    if claims.len() > 0 && claims.last().call_id != id {
        let rest = claims.drop_last();
        lemma_claim_place(rest, id);
        if claim_place(rest, id) is None {
            assert forall|i: int| 0 <= i < claims.len() implies (#[trigger] claims[i]).call_id
                != id by {
                if i < rest.len() {
                    assert(rest[i] == claims[i]);
                }
            }
        }
    }
}

pub(crate) proof fn lemma_running_place(calls: Seq<RunningV>, id: Seq<char>)
    ensures
        match running_place(calls, id) {
            Some(i) => 0 <= i < calls.len() && calls[i].call.call_id == id,
            None => forall|i: int|
                0 <= i < calls.len() ==> (#[trigger] calls[i]).call.call_id != id,
        },
    decreases calls.len(),
{
    if calls.len() > 0 && calls.last().call.call_id != id {
        let rest = calls.drop_last();
        lemma_running_place(rest, id);
        if running_place(rest, id) is None {
            assert forall|i: int| 0 <= i < calls.len() implies (#[trigger] calls[i]).call.call_id
                != id by {
                if i < rest.len() {
                    assert(rest[i] == calls[i]);
                }
            }
        }
    }
}

pub(crate) proof fn lemma_wicket_place(wickets: Seq<WicketV>, host: Seq<char>)
    ensures
        match wicket_place(wickets, host) {
            Some(i) => 0 <= i < wickets.len() && wickets[i].host == host,
            None => forall|i: int| 0 <= i < wickets.len() ==> (#[trigger] wickets[i]).host != host,
        },
    decreases wickets.len(),
{
    if wickets.len() > 0 && wickets.last().host != host {
        let rest = wickets.drop_last();
        lemma_wicket_place(rest, host);
        if wicket_place(rest, host) is None {
            assert forall|i: int| 0 <= i < wickets.len() implies (#[trigger] wickets[i]).host
                != host by {
                if i < rest.len() {
                    assert(rest[i] == wickets[i]);
                }
            }
        }
    }
}

pub(crate) proof fn lemma_socket_place(sockets: Seq<SocketV>, id: u64)
    ensures
        match socket_place(sockets, id) {
            Some(i) => 0 <= i < sockets.len() && sockets[i].id == id,
            None => forall|i: int| 0 <= i < sockets.len() ==> (#[trigger] sockets[i]).id != id,
        },
    decreases sockets.len(),
{
    if sockets.len() > 0 && sockets.last().id != id {
        let rest = sockets.drop_last();
        lemma_socket_place(rest, id);
        if socket_place(rest, id) is None {
            assert forall|i: int| 0 <= i < sockets.len() implies (#[trigger] sockets[i]).id != id by {
                if i < rest.len() {
                    assert(rest[i] == sockets[i]);
                }
            }
        }
    }
}

/// What is left when one element is taken out.
proof fn lemma_without<T>(items: Seq<T>, i: int, k: int)
    requires
        0 <= i < items.len(),
        0 <= k < items.len() - 1,
    ensures
        items.remove(i)[k] == items[if k < i {
            k
        } else {
            k + 1
        }],
{
}

proof fn lemma_other_calls(calls: Seq<RunningV>, id: Seq<char>)
    requires
        calls_tidy(calls),
    ensures
        calls_tidy(other_calls(calls, id)),
        running(other_calls(calls, id), id) is None,
        forall|k: int|
            0 <= k < other_calls(calls, id).len() ==> (#[trigger] other_calls(
                calls,
                id,
            )[k]).call.call_id != id,
{
    lemma_running_place(calls, id);
    let left = other_calls(calls, id);
    if let Some(i) = running_place(calls, id) {
        assert forall|a: int, b: int| 0 <= a < b < left.len() implies (
        #[trigger] left[a]).call.call_id != (#[trigger] left[b]).call.call_id by {
            lemma_without(calls, i, a);
            lemma_without(calls, i, b);
        }
        assert forall|k: int| 0 <= k < left.len() implies (#[trigger] left[k]).call.call_id
            != id by {
            lemma_without(calls, i, k);
            let x = if k < i {
                k
            } else {
                k + 1
            };
            if x < i {
                assert(calls[x].call.call_id != calls[i].call.call_id);
            } else {
                assert(calls[i].call.call_id != calls[x].call.call_id);
            }
        }
    }
    lemma_running_place(left, id);
}

proof fn lemma_other_claims(claims: Seq<ToolCallV>, id: Seq<char>)
    requires
        claims_tidy(claims),
    ensures
        claims_tidy(other_claims(claims, id)),
        forall|k: int|
            0 <= k < other_claims(claims, id).len() ==> (#[trigger] other_claims(
                claims,
                id,
            )[k]).call_id != id,
{
    lemma_claim_place(claims, id);
    let left = other_claims(claims, id);
    if let Some(i) = claim_place(claims, id) {
        assert forall|a: int, b: int| 0 <= a < b < left.len() implies (#[trigger] left[a]).call_id
            != (#[trigger] left[b]).call_id by {
            lemma_without(claims, i, a);
            lemma_without(claims, i, b);
        }
        assert forall|k: int| 0 <= k < left.len() implies (#[trigger] left[k]).call_id != id by {
            lemma_without(claims, i, k);
            let x = if k < i {
                k
            } else {
                k + 1
            };
            if x < i {
                assert(claims[x].call_id != claims[i].call_id);
            } else {
                assert(claims[i].call_id != claims[x].call_id);
            }
        }
    }
}

proof fn lemma_other_sockets(sockets: Seq<SocketV>, id: u64, next: u64)
    requires
        sockets_tidy(sockets, next),
    ensures
        sockets_tidy(other_sockets(sockets, id), next),
        socket(other_sockets(sockets, id), id) is None,
{
    lemma_socket_place(sockets, id);
    let left = other_sockets(sockets, id);
    if let Some(i) = socket_place(sockets, id) {
        assert forall|a: int, b: int| 0 <= a < b < left.len() implies (#[trigger] left[a]).id != (
        #[trigger] left[b]).id by {
            lemma_without(sockets, i, a);
            lemma_without(sockets, i, b);
        }
        assert forall|k: int| 0 <= k < left.len() implies (#[trigger] left[k]).id != id && left[k].id
            < next by {
            lemma_without(sockets, i, k);
            let x = if k < i {
                k
            } else {
                k + 1
            };
            if x < i {
                assert(sockets[x].id != sockets[i].id);
            } else {
                assert(sockets[i].id != sockets[x].id);
            }
        }
    }
    lemma_socket_place(left, id);
}

proof fn lemma_with_wicket(wickets: Seq<WicketV>, changed: WicketV)
    requires
        wickets_tidy(wickets),
        changed.state == WicketState::Starting || changed.stashed.len() == 0,
    ensures
        wickets_tidy(with_wicket(wickets, changed)),
{
    lemma_wicket_place(wickets, changed.host);
    let after = with_wicket(wickets, changed);
    assert forall|a: int, b: int| 0 <= a < b < after.len() implies (#[trigger] after[a]).host != (
    #[trigger] after[b]).host by {
        assert(wickets[a].host != wickets[b].host);
    }
    assert forall|k: int| 0 <= k < after.len() implies (#[trigger] after[k]).state
        == WicketState::Starting || after[k].stashed.len() == 0 by {
        assert(wickets[k].state == WicketState::Starting || wickets[k].stashed.len() == 0);
    }
}

proof fn lemma_other_wickets(wickets: Seq<WicketV>, host: Seq<char>)
    requires
        wickets_tidy(wickets),
    ensures
        wickets_tidy(other_wickets(wickets, host)),
{
    lemma_wicket_place(wickets, host);
    let left = other_wickets(wickets, host);
    if let Some(i) = wicket_place(wickets, host) {
        assert forall|a: int, b: int| 0 <= a < b < left.len() implies (#[trigger] left[a]).host != (
        #[trigger] left[b]).host by {
            lemma_without(wickets, i, a);
            lemma_without(wickets, i, b);
        }
        assert forall|k: int| 0 <= k < left.len() implies (#[trigger] left[k]).state
            == WicketState::Starting || left[k].stashed.len() == 0 by {
            lemma_without(wickets, i, k);
        }
    }
}

proof fn lemma_start_wicket(bus: BusV, host: Seq<char>, waiting: PendingV)
    requires
        tidy(bus),
        wicket(bus.wickets, host) is None,
    ensures
        tidy(start_wicket(bus, host, waiting).bus),
{
    lemma_wicket_place(bus.wickets, host);
    let after = start_wicket(bus, host, waiting).bus.wickets;
    assert forall|a: int, b: int| 0 <= a < b < after.len() implies (#[trigger] after[a]).host != (
    #[trigger] after[b]).host by {
        if b < bus.wickets.len() {
            assert(bus.wickets[a].host != bus.wickets[b].host);
        } else {
            assert(bus.wickets[a].host != host);
        }
    }
}

proof fn lemma_effects_keep_calls_tidy(calls: Seq<RunningV>, effects: Seq<EffectV>)
    requires
        calls_tidy(calls),
    ensures
        calls_tidy(effects_turn(calls, effects).0),
    decreases effects.len(),
{
    if effects.len() > 0 {
        lemma_effects_keep_calls_tidy(calls, effects.drop_last());
        let before = effects_turn(calls, effects.drop_last()).0;
        if let EffectV::Complete { call_id, packet } = effects.last() {
            lemma_other_calls(before, call_id);
        }
    }
}

proof fn lemma_filtered_calls(calls: Seq<RunningV>, keep: spec_fn(RunningV) -> bool)
    requires
        calls_tidy(calls),
    ensures
        calls_tidy(calls.filter(keep)),
        forall|i: int| 0 <= i < calls.filter(keep).len() ==> keep(#[trigger] calls.filter(keep)[i]),
        forall|i: int|
            0 <= i < calls.filter(keep).len() ==> calls.contains(#[trigger] calls.filter(keep)[i]),
    decreases calls.len(),
{
    reveal(Seq::filter);
    if calls.len() > 0 {
        let rest = calls.drop_last();
        assert(calls_tidy(rest)) by {
            assert forall|a: int, b: int| 0 <= a < b < rest.len() implies (
            #[trigger] rest[a]).call.call_id != (#[trigger] rest[b]).call.call_id by {
                assert(calls[a].call.call_id != calls[b].call.call_id);
            }
        }
        lemma_filtered_calls(rest, keep);
        let (fewer, all) = (rest.filter(keep), calls.filter(keep));
        assert forall|i: int| 0 <= i < all.len() implies calls.contains(#[trigger] all[i]) by {
            if i < fewer.len() {
                assert(rest.contains(fewer[i]));
                let k = rest.index_of(fewer[i]);
                assert(calls[k] == all[i]);
            } else {
                assert(calls[calls.len() - 1] == all[i]);
            }
        }
        assert forall|a: int, b: int| 0 <= a < b < all.len() implies (
        #[trigger] all[a]).call.call_id != (#[trigger] all[b]).call.call_id by {
            if b < fewer.len() {
                assert(fewer[a].call.call_id != fewer[b].call.call_id);
            } else {
                assert(rest.contains(fewer[a]));
                let k = rest.index_of(fewer[a]);
                assert(calls[k].call.call_id != calls[calls.len() - 1].call.call_id);
            }
        }
    }
}

// ---------------------------------------------------------------------------
// The bus stays tidy
// ---------------------------------------------------------------------------

/// A socket that connects keeps the bus tidy.
pub proof fn law_accepting_keeps_the_bus_tidy(bus: BusV)
    requires
        tidy(bus),
        bus.next_client < u64::MAX,
    ensures
        tidy(accepted(bus)),
{
}

/// Questions and calls keep the bus tidy.
pub proof fn law_calls_keep_the_bus_tidy(
    bus: BusV,
    call: ToolCallV,
    ticket: u64,
    call_id: Seq<char>,
    now: u64,
)
    requires
        tidy(bus),
    ensures
        tidy(query_turn(bus, ticket).bus),
        tidy(call_turn(bus, call).bus),
        tidy(ensured_turn(bus, call).bus),
        tidy(steered_turn(bus, call_id, now).bus),
{
    lemma_waiting_keeps_wickets_tidy(bus, "localhost"@, PendingV::Query(ticket));
    if let Some(host) = crate::bus::model::wanted_place(call.args) {
        lemma_waiting_keeps_wickets_tidy(bus, host, PendingV::Ensured(call));
    }
    lemma_other_claims(bus.claims, call.call_id);
    let claimed = ensured_turn(bus, call).bus.claims;
    assert(claims_tidy(claimed)) by {
        let others = other_claims(bus.claims, call.call_id);
        assert forall|a: int, b: int| 0 <= a < b < claimed.len() implies (
        #[trigger] claimed[a]).call_id != (#[trigger] claimed[b]).call_id by {
            assert(claimed[a] == others[a]);
            if b < others.len() {
                assert(others[a].call_id != others[b].call_id);
            }
        }
    }
    lemma_claim_place(bus.claims, call_id);
    if let Some(i) = claim_place(bus.claims, call_id) {
        let found = bus.claims[i];
        lemma_other_claims(bus.claims, call_id);
        lemma_other_calls(bus.calls, call_id);
        let others = other_calls(bus.calls, call_id);
        assert forall|client_id: u64| #[trigger]
            calls_tidy(others.push(RunningV { call: found, client_id })) by {
            let after = others.push(RunningV { call: found, client_id });
            assert forall|a: int, b: int| 0 <= a < b < after.len() implies (
            #[trigger] after[a]).call.call_id != (#[trigger] after[b]).call.call_id by {
                assert(after[a] == others[a]);
                if b < others.len() {
                    assert(others[a].call.call_id != others[b].call.call_id);
                }
            }
        }
        assert forall|client_id: u64, routes: Seq<CallV>| #[trigger]
            tidy(dispatch(bus, found, client_id, routes).bus) by {
            assert(calls_tidy(others.push(RunningV { call: found, client_id })));
        }
    }
}

/// Something that waits for a Wicket, old or new, keeps the Wickets tidy.
proof fn lemma_waiting_keeps_wickets_tidy(bus: BusV, host: Seq<char>, waiting: PendingV)
    requires
        tidy(bus),
    ensures
        match wicket(bus.wickets, host) {
            Some(w) => w.state == WicketState::Starting ==> tidy(stash(bus, w, waiting).bus),
            None => tidy(start_wicket(bus, host, waiting).bus),
        },
{
    lemma_wicket_place(bus.wickets, host);
    match wicket(bus.wickets, host) {
        Some(w) => {
            if w.state == WicketState::Starting {
                lemma_with_wicket(
                    bus.wickets,
                    WicketV { stashed: w.stashed.push(waiting), ..w },
                );
            }
        },
        None => lemma_start_wicket(bus, host, waiting),
    }
}

/// Answers, time and the packets of screenshots keep the bus tidy.
pub proof fn law_answers_keep_the_bus_tidy(
    bus: BusV,
    client_id: u64,
    call_id: Seq<char>,
    result: ResultV,
    held: Option<Val>,
    data: Val,
    sizes: Sizes,
    now: u64,
)
    requires
        tidy(bus),
    ensures
        tidy(response_turn(bus, client_id, call_id, result, held).bus),
        tidy(call_timeout_turn(bus, call_id).bus),
        tidy(screenshot_turn(bus, client_id, data, sizes, now).bus),
        tidy(tick_turn(bus, now).bus),
        tidy(disconnected_turn(bus, client_id).bus),
{
    lemma_other_calls(bus.calls, call_id);
    assert forall|effects: Seq<EffectV>| #[trigger]
        calls_tidy(effects_turn(bus.calls, effects).0) by {
        lemma_effects_keep_calls_tidy(bus.calls, effects);
    }
    lemma_disconnected_is_tidy(bus, client_id);
    let writers = all_serving(bus.sockets, "wicket"@, "localhost"@);
    let step = packet_step(bus.routes, client_id, data, sizes, writers, now);
    let first = routed_turn(bus, step.calls, step.effects).bus;
    assert(calls_tidy(effects_turn(bus.calls, step.effects).0));
    assert(tidy(first));
    lemma_disconnected_is_tidy(first, client_id);
    let ticked = expire_step(bus.routes, now);
    assert(calls_tidy(effects_turn(bus.calls, ticked.effects).0));
    assert forall|reason: Seq<char>, relay: bool| #[trigger]
        calls_tidy(
            effects_turn(bus.calls, end_step(bus.routes, call_id, reason, relay).effects).0,
        ) by {
        lemma_effects_keep_calls_tidy(
            bus.calls,
            end_step(bus.routes, call_id, reason, relay).effects,
        );
    }
}

proof fn lemma_disconnected_is_tidy(bus: BusV, client_id: u64)
    requires
        tidy(bus),
    ensures
        tidy(disconnected_turn(bus, client_id).bus),
{
    let step = disconnect_step(bus.routes, client_id);
    let calls = effects_turn(bus.calls, step.effects).0;
    lemma_effects_keep_calls_tidy(bus.calls, step.effects);
    lemma_filtered_calls(calls, |r: RunningV| r.client_id != client_id);
    lemma_other_sockets(bus.sockets, client_id, bus.next_client);
    let after = without_client(bus.wickets, client_id);
    assert forall|a: int, b: int| 0 <= a < b < after.len() implies (#[trigger] after[a]).host != (
    #[trigger] after[b]).host by {
        assert(bus.wickets[a].host != bus.wickets[b].host);
    }
    assert forall|k: int| 0 <= k < after.len() implies (#[trigger] after[k]).state
        == WicketState::Starting || after[k].stashed.len() == 0 by {
        assert(bus.wickets[k].state == WicketState::Starting || bus.wickets[k].stashed.len() == 0);
    }
}

/// What happens to Wickets keeps the bus tidy.
pub proof fn law_wickets_keep_the_bus_tidy(
    bus: BusV,
    client_id: u64,
    who: Seq<char>,
    place: Option<Seq<char>>,
    tools: Seq<ListedV>,
    host: Seq<char>,
    error: Seq<char>,
)
    requires
        tidy(bus),
    ensures
        tidy(connect_turn(bus, client_id, who, place, tools).bus),
        tidy(spawn_failed_turn(bus, host, error).bus),
        tidy(exited_turn(bus, host).bus),
        tidy(spawn_timeout_turn(bus, host).bus),
{
    lemma_other_wickets(bus.wickets, host);
    lemma_with_wicket(
        bus.wickets,
        WicketV { host, state: WicketState::Disconnected, stashed: Seq::empty() },
    );
    lemma_socket_place(bus.sockets, client_id);
    let after = connect_turn(bus, client_id, who, place, tools).bus;
    assert(sockets_tidy(after.sockets, after.next_client)) by {
        assert forall|a: int, b: int| 0 <= a < b < after.sockets.len() implies (
        #[trigger] after.sockets[a]).id != (#[trigger] after.sockets[b]).id by {
            assert(bus.sockets[a].id != bus.sockets[b].id);
        }
        assert forall|k: int| 0 <= k < after.sockets.len() implies (#[trigger] after.sockets[k]).id
            < after.next_client by {
            assert(bus.sockets[k].id < bus.next_client);
        }
    }
    if who == "wicket"@ && place is Some {
        let here = place->0;
        let w = WicketV {
            host: here,
            state: WicketState::Connected(client_id),
            stashed: Seq::empty(),
        };
        lemma_wicket_place(bus.wickets, here);
        if wicket(bus.wickets, here) is Some {
            lemma_with_wicket(bus.wickets, w);
        } else {
            assert forall|a: int, b: int| 0 <= a < b < after.wickets.len() implies (
            #[trigger] after.wickets[a]).host != (#[trigger] after.wickets[b]).host by {
                if b < bus.wickets.len() {
                    assert(bus.wickets[a].host != bus.wickets[b].host);
                } else {
                    assert(bus.wickets[a].host != here);
                }
            }
        }
    }
}

// ---------------------------------------------------------------------------
// Who answers a call
// ---------------------------------------------------------------------------

/// Only the socket to which a call was dispatched can answer it: the answer of
/// another changes nothing.
pub proof fn law_only_the_called_socket_answers(
    bus: BusV,
    client_id: u64,
    call_id: Seq<char>,
    result: ResultV,
    held: Option<Val>,
)
    requires
        running(bus.calls, call_id) matches Some(r) && r.client_id != client_id,
    ensures
        response_turn(bus, client_id, call_id, result, held) == idle(bus),
{
}

/// An ordinary call is answered once, with exactly the answer of its socket: no
/// later answer has any effect.
pub proof fn law_a_call_is_answered_once(
    bus: BusV,
    client_id: u64,
    call_id: Seq<char>,
    result: ResultV,
    held: Option<Val>,
    other: u64,
    again: ResultV,
)
    requires
        tidy(bus),
        running(bus.calls, call_id) matches Some(r) && r.client_id == client_id,
        !routed(bus.routes, call_id),
    ensures
        ({
            let turn = response_turn(bus, client_id, call_id, result, held);
            &&& turn.actions == seq![
                ActionV::Reply(running(bus.calls, call_id)->0.call.ticket, result),
            ]
            &&& response_turn(turn.bus, other, call_id, again, held) == idle(turn.bus)
            &&& call_timeout_turn(turn.bus, call_id) == idle(turn.bus)
        }),
{
    lemma_other_calls(bus.calls, call_id);
}

/// A call goes to a socket that has the name and the place that it asks for.
pub proof fn law_a_call_reaches_its_client(
    sockets: Seq<SocketV>,
    who: Seq<char>,
    place: Seq<char>,
    id: u64,
)
    requires
        serving(sockets, who, place) == Some(id),
    ensures
        exists|i: int|
            0 <= i < sockets.len() && (#[trigger] sockets[i]).id == id && sockets[i].who == Some(who)
                && sockets[i].place == place,
    decreases sockets.len(),
{
    let rest = sockets.drop_last();
    if serving(rest, who, place) is Some {
        law_a_call_reaches_its_client(rest, who, place, id);
        let i = choose|i: int|
            0 <= i < rest.len() && (#[trigger] rest[i]).id == id && rest[i].who == Some(who)
                && rest[i].place == place;
        assert(sockets[i] == rest[i]);
    } else {
        assert(sockets[sockets.len() - 1].id == id);
    }
}

/// A socket that hangs up leaves no call behind: each is answered, none is tried
/// again, and the socket is forgotten.
pub proof fn law_a_hung_up_socket_leaves_nothing(bus: BusV, client_id: u64)
    requires
        tidy(bus),
    ensures
        ({
            let after = disconnected_turn(bus, client_id).bus;
            &&& socket(after.sockets, client_id) is None
            &&& forall|i: int|
                0 <= i < after.calls.len() ==> (#[trigger] after.calls[i]).client_id != client_id
            &&& forall|i: int|
                0 <= i < after.wickets.len() ==> (#[trigger] after.wickets[i]).state
                    != WicketState::Connected(client_id)
        }),
{
    let step = disconnect_step(bus.routes, client_id);
    let calls = effects_turn(bus.calls, step.effects).0;
    lemma_effects_keep_calls_tidy(bus.calls, step.effects);
    lemma_filtered_calls(calls, |r: RunningV| r.client_id != client_id);
    lemma_other_sockets(bus.sockets, client_id, bus.next_client);
}

/// A call without a route whose socket hangs up is answered that it may or may not
/// have completed.
pub proof fn law_a_hung_up_call_is_answered(
    calls: Seq<RunningV>,
    client_id: u64,
    place: Seq<char>,
    i: int,
)
    requires
        0 <= i < calls.len(),
        calls[i].client_id == client_id,
    ensures
        hang_ups(calls, client_id, place).contains(
            ActionV::Reply(calls[i].call.ticket, hung_up(calls[i].call.args, place)),
        ),
    decreases calls.len(),
{
    let rest = calls.drop_last();
    let answer = ActionV::Reply(calls[i].call.ticket, hung_up(calls[i].call.args, place));
    let all = hang_ups(calls, client_id, place);
    if i < rest.len() {
        law_a_hung_up_call_is_answered(rest, client_id, place, i);
        let k = hang_ups(rest, client_id, place).index_of(answer);
        assert(all[k] == answer);
    } else {
        assert(all[all.len() - 1] == answer);
    }
}

/// A socket that breaks the protocol of screenshots is gone at once.
pub proof fn law_a_violation_quarantines_the_socket(
    bus: BusV,
    client_id: u64,
    data: Val,
    sizes: Sizes,
    now: u64,
)
    requires
        tidy(bus),
        closes(
            packet_step(
                bus.routes,
                client_id,
                data,
                sizes,
                all_serving(bus.sockets, "wicket"@, "localhost"@),
                now,
            ).effects,
        ),
    ensures
        ({
            let turn = screenshot_turn(bus, client_id, data, sizes, now);
            &&& socket(turn.bus.sockets, client_id) is None
            &&& forall|i: int|
                0 <= i < turn.bus.calls.len() ==> (#[trigger] turn.bus.calls[i]).client_id
                    != client_id
        }),
{
    let writers = all_serving(bus.sockets, "wicket"@, "localhost"@);
    let step = packet_step(bus.routes, client_id, data, sizes, writers, now);
    lemma_effects_keep_calls_tidy(bus.calls, step.effects);
    law_a_hung_up_socket_leaves_nothing(
        routed_turn(bus, step.calls, step.effects).bus,
        client_id,
    );
}

/// What waits for a Wicket is never lost: when the Wicket connects, exits or takes
/// too long, everything that waits is checked again, in its order.
pub proof fn law_what_waits_is_checked_again(
    bus: BusV,
    client_id: u64,
    tools: Seq<ListedV>,
    host: Seq<char>,
    i: int,
)
    requires
        wicket(bus.wickets, host) matches Some(w) && w.state == WicketState::Starting && 0 <= i
            < w.stashed.len(),
    ensures
        ({
            let waiting = wicket(bus.wickets, host)->0.stashed;
            let check = ActionV::Enqueue(crate::bus::model::QueuedV::Check(waiting[i]));
            &&& connect_turn(bus, client_id, "wicket"@, Some(host), tools).actions == rechecks(
                waiting,
            )
            &&& exited_turn(bus, host).actions == rechecks(waiting)
            &&& spawn_timeout_turn(bus, host).actions == rechecks(waiting)
            &&& rechecks(waiting).len() == waiting.len()
            &&& rechecks(waiting)[i] == check
        }),
{
}

} // verus!
