//! The model of the bus: what each event does to it.

use crate::bus::tools::{all_offered, listing_text, ListedV};
use crate::json::Val;
use crate::screenshot::model::{
    disconnect_step, end_step, expire_step, packet_step, register_error, registered, removed, route,
    routed, tool_error, CallV, EffectV, Sizes,
};
use crate::serial::compact;
use vstd::prelude::*;

verus! {

/// How long a Wicket may take to connect, in milliseconds.
pub const SPAWN_TIMEOUT: u64 = 10_000;

/// How long a tool call may take, in milliseconds.
pub const CALL_TIMEOUT: u64 = 86_400_000;

/// The model of a call of a function.
pub struct ToolCallV {
    pub call_id: Seq<char>,
    pub slug: Seq<char>,
    pub tool: Seq<char>,
    pub args: Val,
    pub ticket: u64,
}

/// The model of a call that was dispatched to a socket.
pub struct RunningV {
    pub call: ToolCallV,
    pub client_id: u64,
}

/// The model of what can wait for a Wicket.
pub enum PendingV {
    Query(u64),
    Call(ToolCallV),
    Ensured(ToolCallV),
}

/// The model of a socket.
pub struct SocketV {
    pub id: u64,
    pub who: Option<Seq<char>>,
    pub place: Seq<char>,
    pub tools: Option<Seq<ListedV>>,
}

/// Where a Wicket stands.
#[derive(Clone, Copy, Debug, PartialEq, Eq, Structural)]
pub enum WicketState {
    Starting,
    Connected(u64),
    Disconnected,
}

/// The model of a Wicket on a host, and what waits for it.
pub struct WicketV {
    pub host: Seq<char>,
    pub state: WicketState,
    pub stashed: Seq<PendingV>,
}

/// The model of the bus.
#[verifier::ext_equal]
pub struct BusV {
    pub sockets: Seq<SocketV>,
    pub claims: Seq<ToolCallV>,
    pub calls: Seq<RunningV>,
    pub wickets: Seq<WicketV>,
    pub routes: Seq<CallV>,
    pub next_client: u64,
}

/// The model of what waits in the queue.
pub enum QueuedV {
    Check(PendingV),
    Pending(PendingV),
    Steered(Seq<char>),
}

/// The model of what a timer is for.
pub enum TimerV {
    Call(Seq<char>),
    Spawn(Seq<char>),
}

/// The model of the answer of a tool.
pub struct ResultV {
    pub output: Seq<char>,
    pub exit_code: i32,
    pub changes: Option<Val>,
}

/// The model of what has to be done for the bus.
pub enum ActionV {
    Enqueue(QueuedV),
    Tools(u64, Seq<char>),
    Reply(u64, ResultV),
    Spawn(Seq<char>),
    Delay(u64, TimerV),
    Send(u64, Val),
    Close(u64),
    Observe(Val),
}

/// The bus after an event, and what has to be done.
pub struct Turn {
    pub bus: BusV,
    pub actions: Seq<ActionV>,
}

/// Nothing changes, and nothing has to be done.
pub open spec fn idle(bus: BusV) -> Turn {
    Turn { bus, actions: Seq::empty() }
}

/// Nothing changes, and one thing has to be done.
pub open spec fn only(bus: BusV, action: ActionV) -> Turn {
    Turn { bus, actions: seq![action] }
}

// ---------------------------------------------------------------------------
// Looking things up
// ---------------------------------------------------------------------------

/// The place of the claim with an identity.
pub open spec fn claim_place(claims: Seq<ToolCallV>, id: Seq<char>) -> Option<int>
    decreases claims.len(),
{
    if claims.len() == 0 {
        None
    } else if claims.last().call_id == id {
        Some(claims.len() - 1)
    } else {
        claim_place(claims.drop_last(), id)
    }
}

/// The claim with an identity.
pub open spec fn claim(claims: Seq<ToolCallV>, id: Seq<char>) -> Option<ToolCallV> {
    match claim_place(claims, id) {
        Some(i) => Some(claims[i]),
        None => None,
    }
}

/// The claims without the one with an identity.
pub open spec fn other_claims(claims: Seq<ToolCallV>, id: Seq<char>) -> Seq<ToolCallV> {
    match claim_place(claims, id) {
        Some(i) => claims.remove(i),
        None => claims,
    }
}

/// The place of the dispatched call with an identity.
pub open spec fn running_place(calls: Seq<RunningV>, id: Seq<char>) -> Option<int>
    decreases calls.len(),
{
    if calls.len() == 0 {
        None
    } else if calls.last().call.call_id == id {
        Some(calls.len() - 1)
    } else {
        running_place(calls.drop_last(), id)
    }
}

/// The dispatched call with an identity.
pub open spec fn running(calls: Seq<RunningV>, id: Seq<char>) -> Option<RunningV> {
    match running_place(calls, id) {
        Some(i) => Some(calls[i]),
        None => None,
    }
}

/// The dispatched calls without the one with an identity.
pub open spec fn other_calls(calls: Seq<RunningV>, id: Seq<char>) -> Seq<RunningV> {
    match running_place(calls, id) {
        Some(i) => calls.remove(i),
        None => calls,
    }
}

/// The place of the Wicket on a host.
pub open spec fn wicket_place(wickets: Seq<WicketV>, host: Seq<char>) -> Option<int>
    decreases wickets.len(),
{
    if wickets.len() == 0 {
        None
    } else if wickets.last().host == host {
        Some(wickets.len() - 1)
    } else {
        wicket_place(wickets.drop_last(), host)
    }
}

/// The Wicket on a host.
pub open spec fn wicket(wickets: Seq<WicketV>, host: Seq<char>) -> Option<WicketV> {
    match wicket_place(wickets, host) {
        Some(i) => Some(wickets[i]),
        None => None,
    }
}

/// The Wickets with another one for a host.
pub open spec fn with_wicket(wickets: Seq<WicketV>, changed: WicketV) -> Seq<WicketV> {
    match wicket_place(wickets, changed.host) {
        Some(i) => wickets.update(i, changed),
        None => wickets,
    }
}

/// The Wickets on other hosts.
pub open spec fn other_wickets(wickets: Seq<WicketV>, host: Seq<char>) -> Seq<WicketV> {
    match wicket_place(wickets, host) {
        Some(i) => wickets.remove(i),
        None => wickets,
    }
}

/// The place of the socket with an identity.
pub open spec fn socket_place(sockets: Seq<SocketV>, id: u64) -> Option<int>
    decreases sockets.len(),
{
    if sockets.len() == 0 {
        None
    } else if sockets.last().id == id {
        Some(sockets.len() - 1)
    } else {
        socket_place(sockets.drop_last(), id)
    }
}

/// The socket with an identity.
pub open spec fn socket(sockets: Seq<SocketV>, id: u64) -> Option<SocketV> {
    match socket_place(sockets, id) {
        Some(i) => Some(sockets[i]),
        None => None,
    }
}

/// The sockets with another one under an identity.
pub open spec fn with_socket(sockets: Seq<SocketV>, changed: SocketV) -> Seq<SocketV> {
    match socket_place(sockets, changed.id) {
        Some(i) => sockets.update(i, changed),
        None => sockets,
    }
}

/// The sockets without the one with an identity.
pub open spec fn other_sockets(sockets: Seq<SocketV>, id: u64) -> Seq<SocketV> {
    match socket_place(sockets, id) {
        Some(i) => sockets.remove(i),
        None => sockets,
    }
}

/// The first socket of a client at a place.
pub open spec fn serving(sockets: Seq<SocketV>, who: Seq<char>, place: Seq<char>) -> Option<u64>
    decreases sockets.len(),
{
    if sockets.len() == 0 {
        None
    } else {
        match serving(sockets.drop_last(), who, place) {
            Some(id) => Some(id),
            None => if sockets.last().who == Some(who) && sockets.last().place == place {
                Some(sockets.last().id)
            } else {
                None
            },
        }
    }
}

/// The sockets of a client at a place.
pub open spec fn all_serving(sockets: Seq<SocketV>, who: Seq<char>, place: Seq<char>) -> Seq<u64>
    decreases sockets.len(),
{
    if sockets.len() == 0 {
        Seq::empty()
    } else {
        let earlier = all_serving(sockets.drop_last(), who, place);
        if sockets.last().who == Some(who) && sockets.last().place == place {
            earlier.push(sockets.last().id)
        } else {
            earlier
        }
    }
}

/// The functions that the sockets offer.
pub open spec fn tool_sets(sockets: Seq<SocketV>) -> Seq<Seq<ListedV>>
    decreases sockets.len(),
{
    if sockets.len() == 0 {
        Seq::empty()
    } else {
        let earlier = tool_sets(sockets.drop_last());
        match sockets.last().tools {
            Some(set) => earlier.push(set),
            None => earlier,
        }
    }
}

/// Where a call is to run, if it says so.
pub open spec fn wanted_place(args: Val) -> Option<Seq<char>> {
    args.at("args"@).text_at("where"@)
}

// ---------------------------------------------------------------------------
// Answers
// ---------------------------------------------------------------------------

/// A failure that the bus reports itself.
pub open spec fn failed(output: Seq<char>) -> ResultV {
    ResultV { output, exit_code: 1, changes: None }
}

/// The text of a packet; no text where it cannot be written.
pub open spec fn packet_text(packet: Val) -> Seq<char> {
    match compact(packet) {
        Some(text) => text,
        None => Seq::empty(),
    }
}

/// What a call is answered where the router of screenshots completes it. Only a
/// stored picture is a success.
pub open spec fn completion(packet: Val) -> ResultV {
    ResultV {
        output: packet_text(packet),
        exit_code: if packet.text_at("why"@) == Some("stored"@) {
            0
        } else {
            1
        },
        changes: None,
    }
}

/// What has to be done for one effect of the router, and the calls that are left.
pub open spec fn effect_turn(calls: Seq<RunningV>, effect: EffectV) -> (
    Seq<RunningV>,
    Seq<ActionV>,
) {
    match effect {
        EffectV::Send { socket, packet } => (calls, seq![ActionV::Send(socket, packet)]),
        EffectV::Close { socket } => (calls, seq![ActionV::Close(socket)]),
        EffectV::Observe(fact) => (calls, seq![ActionV::Observe(fact)]),
        EffectV::Complete { call_id, packet } => match running(calls, call_id) {
            Some(r) => (
                other_calls(calls, call_id),
                seq![ActionV::Reply(r.call.ticket, completion(packet))],
            ),
            None => (calls, Seq::empty()),
        },
    }
}

/// What has to be done for the effects of the router, and the calls that are left.
pub open spec fn effects_turn(calls: Seq<RunningV>, effects: Seq<EffectV>) -> (
    Seq<RunningV>,
    Seq<ActionV>,
)
    decreases effects.len(),
{
    if effects.len() == 0 {
        (calls, Seq::empty())
    } else {
        let (before, done) = effects_turn(calls, effects.drop_last());
        let (after, more) = effect_turn(before, effects.last());
        (after, done + more)
    }
}

/// The bus after the router has taken a step.
pub open spec fn routed_turn(bus: BusV, routes: Seq<CallV>, effects: Seq<EffectV>) -> Turn {
    let (calls, actions) = effects_turn(bus.calls, effects);
    Turn { bus: BusV { calls, routes, ..bus }, actions }
}

// ---------------------------------------------------------------------------
// Tool calls
// ---------------------------------------------------------------------------

/// A Wicket is started, and an event waits for it.
pub open spec fn start_wicket(bus: BusV, host: Seq<char>, waiting: PendingV) -> Turn {
    Turn {
        bus: BusV {
            wickets: bus.wickets.push(
                WicketV { host, state: WicketState::Starting, stashed: seq![waiting] },
            ),
            ..bus
        },
        actions: seq![ActionV::Spawn(host)],
    }
}

/// One more event waits for a Wicket.
pub open spec fn stash(bus: BusV, w: WicketV, waiting: PendingV) -> Turn {
    idle(
        BusV {
            wickets: with_wicket(
                bus.wickets,
                WicketV { stashed: w.stashed.push(waiting), ..w },
            ),
            ..bus
        },
    )
}

/// The listing of the functions of all clients.
pub open spec fn tools_text(bus: BusV) -> Seq<char> {
    listing_text(all_offered(tool_sets(bus.sockets)))
}

/// Someone asks what functions there are. The Wicket at home is started for it,
/// and waited for.
pub open spec fn query_turn(bus: BusV, ticket: u64) -> Turn {
    let home = "localhost"@;
    match wicket(bus.wickets, home) {
        Some(w) => match w.state {
            WicketState::Starting => stash(bus, w, PendingV::Query(ticket)),
            _ => only(bus, ActionV::Tools(ticket, tools_text(bus))),
        },
        None => start_wicket(bus, home, PendingV::Query(ticket)),
    }
}

/// A function is called. A call of a Wicket names its host, whose Wicket is
/// started for it, and waited for; a Wicket that has hung up is not started again.
pub open spec fn call_turn(bus: BusV, call: ToolCallV) -> Turn {
    let ensured = PendingV::Ensured(call);
    if call.args.named("who"@) != "wicket"@ {
        only(bus, ActionV::Enqueue(QueuedV::Pending(ensured)))
    } else {
        match wanted_place(call.args) {
            None => only(
                bus,
                ActionV::Reply(
                    call.ticket,
                    failed("wicket tool call missing required where argument"@),
                ),
            ),
            Some(host) => match wicket(bus.wickets, host) {
                Some(w) => match w.state {
                    WicketState::Connected(_) => only(
                        bus,
                        ActionV::Enqueue(QueuedV::Pending(ensured)),
                    ),
                    WicketState::Starting => stash(bus, w, ensured),
                    WicketState::Disconnected => only(
                        bus,
                        ActionV::Reply(
                            call.ticket,
                            failed("wicket on "@ + host + " disconnected"@),
                        ),
                    ),
                },
                None => start_wicket(bus, host, ensured),
            },
        }
    }
}

/// The client of a call is there: the call is claimed, and steered next.
pub open spec fn ensured_turn(bus: BusV, call: ToolCallV) -> Turn {
    Turn {
        bus: BusV { claims: other_claims(bus.claims, call.call_id).push(call), ..bus },
        actions: seq![ActionV::Enqueue(QueuedV::Steered(call.call_id))],
    }
}

/// The members of an object, and none of another value.
pub open spec fn object_members(v: Val) -> Map<Seq<char>, Val> {
    match v {
        Val::Object(m) => m,
        _ => Map::empty(),
    }
}

/// What is sent to the client of a call: its arguments, together with what names
/// the call.
pub open spec fn dispatch_value(call: ToolCallV) -> Val {
    let head = Val::empty_object().with("what"@, Val::Text("tool"@)).with(
        "slug"@,
        Val::Text(call.slug),
    ).with("transcript"@, Val::Text(Seq::empty())).with("why"@, Val::Text("run"@)).with(
        "call_id"@,
        Val::Text(call.call_id),
    );
    Val::Object(
        object_members(head).union_prefer_right(object_members(call.args.at("args"@))).insert(
            "f"@,
            Val::Text(call.args.named("f"@)),
        ),
    )
}

/// Whether a call saves a screenshot.
pub open spec fn is_save(args: Val) -> bool {
    args.named("who"@) == "shotgun"@ && args.named("f"@) == "screenshot_save"@
}

/// A claimed call is dispatched to the socket of its client.
pub open spec fn dispatch(bus: BusV, call: ToolCallV, client_id: u64, routes: Seq<CallV>) -> Turn {
    Turn {
        bus: BusV {
            claims: other_claims(bus.claims, call.call_id),
            calls: other_calls(bus.calls, call.call_id).push(RunningV { call, client_id }),
            routes,
            ..bus
        },
        actions: seq![
            ActionV::Send(client_id, dispatch_value(call)),
            ActionV::Delay(CALL_TIMEOUT, TimerV::Call(call.call_id)),
        ],
    }
}

/// A claimed call finds the socket of its client, by name and place, or fails. A
/// call that saves a screenshot needs a route.
pub open spec fn steered_turn(bus: BusV, call_id: Seq<char>, now: u64) -> Turn {
    match claim(bus.claims, call_id) {
        None => idle(bus),
        Some(call) => {
            let who = call.args.named("who"@);
            let place = match wanted_place(call.args) {
                Some(p) => p,
                None => "localhost"@,
            };
            let unclaimed = BusV { claims: other_claims(bus.claims, call_id), ..bus };
            match serving(bus.sockets, who, place) {
                None => only(
                    unclaimed,
                    ActionV::Reply(
                        call.ticket,
                        failed("no connected client for who="@ + who + " where="@ + place),
                    ),
                ),
                Some(client_id) => if !is_save(call.args) {
                    dispatch(bus, call, client_id, bus.routes)
                } else {
                    match register_error(bus.routes, call_id, call.slug, call.args) {
                        Some(reason) => only(
                            unclaimed,
                            ActionV::Reply(call.ticket, failed(reason)),
                        ),
                        None => dispatch(
                            bus,
                            call,
                            client_id,
                            registered(bus.routes, call_id, client_id, call.slug, call.args, now),
                        ),
                    }
                },
            }
        },
    }
}

/// A socket answers a call. Only the socket to which the call was dispatched can.
/// The answer of a screenshot save has to be the packet that was relayed: else
/// the call gets the outcome that is known, and not the answer.
pub open spec fn response_turn(
    bus: BusV,
    client_id: u64,
    call_id: Seq<char>,
    result: ResultV,
    held: Option<Val>,
) -> Turn {
    match running(bus.calls, call_id) {
        None => idle(bus),
        Some(r) => if r.client_id != client_id {
            idle(bus)
        } else if !routed(bus.routes, call_id) {
            Turn {
                bus: BusV { calls: other_calls(bus.calls, call_id), ..bus },
                actions: seq![ActionV::Reply(r.call.ticket, result)],
            }
        } else {
            match tool_error(bus.routes, call_id, held) {
                None => Turn {
                    bus: BusV {
                        calls: other_calls(bus.calls, call_id),
                        routes: removed(bus.routes, call_id),
                        ..bus
                    },
                    actions: seq![
                        ActionV::Reply(
                            r.call.ticket,
                            ResultV {
                                output: packet_text(route(bus.routes, call_id).result->0),
                                exit_code: result.exit_code,
                                changes: None,
                            },
                        ),
                    ],
                },
                Some(reason) => {
                    let step = end_step(bus.routes, call_id, reason, false);
                    routed_turn(bus, step.calls, step.effects)
                },
            }
        },
    }
}

/// A call has taken too long.
pub open spec fn call_timeout_turn(bus: BusV, call_id: Seq<char>) -> Turn {
    match running(bus.calls, call_id) {
        None => idle(bus),
        Some(r) => if routed(bus.routes, call_id) {
            let step = end_step(bus.routes, call_id, "tool call timed out"@, true);
            routed_turn(bus, step.calls, step.effects)
        } else {
            Turn {
                bus: BusV { calls: other_calls(bus.calls, call_id), ..bus },
                actions: seq![ActionV::Reply(r.call.ticket, failed("tool call timed out"@))],
            }
        },
    }
}

// ---------------------------------------------------------------------------
// Sockets
// ---------------------------------------------------------------------------

/// A socket connects. It has no name yet.
pub open spec fn accepted(bus: BusV) -> BusV {
    BusV {
        sockets: bus.sockets.push(
            SocketV { id: bus.next_client, who: None, place: "localhost"@, tools: None },
        ),
        next_client: (bus.next_client + 1) as u64,
        ..bus
    }
}

/// What waited is checked again, in its order.
pub open spec fn rechecks(stashed: Seq<PendingV>) -> Seq<ActionV> {
    stashed.map_values(|p: PendingV| ActionV::Enqueue(QueuedV::Check(p)))
}

/// A socket says who it is, where, and what functions it offers. What waited for
/// its Wicket is checked again.
pub open spec fn connect_turn(
    bus: BusV,
    client_id: u64,
    who: Seq<char>,
    place: Option<Seq<char>>,
    tools: Seq<ListedV>,
) -> Turn {
    let named = BusV {
        sockets: with_socket(
            bus.sockets,
            SocketV {
                id: client_id,
                who: Some(who),
                place: match place {
                    Some(p) => p,
                    None => "localhost"@,
                },
                tools: Some(tools),
            },
        ),
        ..bus
    };
    if who == "wicket"@ && place is Some {
        let host = place->0;
        match wicket(bus.wickets, host) {
            Some(w) => Turn {
                bus: BusV {
                    wickets: with_wicket(
                        bus.wickets,
                        WicketV {
                            host,
                            state: WicketState::Connected(client_id),
                            stashed: Seq::empty(),
                        },
                    ),
                    ..named
                },
                actions: rechecks(w.stashed),
            },
            None => idle(
                BusV {
                    wickets: bus.wickets.push(
                        WicketV {
                            host,
                            state: WicketState::Connected(client_id),
                            stashed: Seq::empty(),
                        },
                    ),
                    ..named
                },
            ),
        }
    } else {
        idle(named)
    }
}

/// What a call is answered whose socket has hung up. Whether it has run is not
/// known, and it is not tried again.
pub open spec fn hung_up(args: Val, place: Seq<char>) -> ResultV {
    let who = match args.text_at("who"@) {
        Some(w) => w,
        None => "unknown"@,
    };
    let at = match wanted_place(args) {
        Some(p) => p,
        None => place,
    };
    failed(
        if who == "wicket"@ {
            "wicket on "@ + at
                + " hung up while running tool call; command may or may not have completed"@
        } else {
            "client who="@ + who + " where="@ + at
                + " hung up while running tool call; operation may or may not have completed"@
        },
    )
}

/// The answers to the calls of a socket that has hung up.
pub open spec fn hang_ups(calls: Seq<RunningV>, client_id: u64, place: Seq<char>) -> Seq<ActionV>
    decreases calls.len(),
{
    if calls.len() == 0 {
        Seq::empty()
    } else {
        let earlier = hang_ups(calls.drop_last(), client_id, place);
        let last = calls.last();
        if last.client_id == client_id {
            earlier.push(ActionV::Reply(last.call.ticket, hung_up(last.call.args, place)))
        } else {
            earlier
        }
    }
}

/// The Wickets after a socket has hung up.
pub open spec fn without_client(wickets: Seq<WicketV>, client_id: u64) -> Seq<WicketV> {
    wickets.map_values(
        |w: WicketV|
            if w.state == WicketState::Connected(client_id) {
                WicketV { state: WicketState::Disconnected, ..w }
            } else {
                w
            },
    )
}

/// A socket is gone: its routes end, its Wicket has hung up, and its calls fail.
pub open spec fn disconnected_turn(bus: BusV, client_id: u64) -> Turn {
    let place = match socket(bus.sockets, client_id) {
        Some(s) => s.place,
        None => "unknown"@,
    };
    let step = disconnect_step(bus.routes, client_id);
    let (calls, actions) = effects_turn(bus.calls, step.effects);
    Turn {
        bus: BusV {
            sockets: other_sockets(bus.sockets, client_id),
            calls: calls.filter(|r: RunningV| r.client_id != client_id),
            wickets: without_client(bus.wickets, client_id),
            routes: step.calls,
            ..bus
        },
        actions: actions + hang_ups(calls, client_id, place),
    }
}

/// Whether the last effect closes a socket.
pub open spec fn closes(effects: Seq<EffectV>) -> bool {
    effects.len() > 0 && effects.last() is Close
}

/// A packet of a screenshot save. A socket that breaks the protocol is gone at
/// once.
pub open spec fn screenshot_turn(
    bus: BusV,
    client_id: u64,
    data: Val,
    sizes: Sizes,
    now: u64,
) -> Turn {
    let writers = all_serving(bus.sockets, "wicket"@, "localhost"@);
    let step = packet_step(bus.routes, client_id, data, sizes, writers, now);
    let first = routed_turn(bus, step.calls, step.effects);
    if closes(step.effects) {
        let second = disconnected_turn(first.bus, client_id);
        Turn { bus: second.bus, actions: first.actions + second.actions }
    } else {
        first
    }
}

/// Time passes for the routes.
pub open spec fn tick_turn(bus: BusV, now: u64) -> Turn {
    let step = expire_step(bus.routes, now);
    routed_turn(bus, step.calls, step.effects)
}

// ---------------------------------------------------------------------------
// Wickets
// ---------------------------------------------------------------------------

/// The process of a Wicket is there: it has some time to connect.
pub open spec fn spawned_turn(bus: BusV, host: Seq<char>) -> Turn {
    only(bus, ActionV::Delay(SPAWN_TIMEOUT, TimerV::Spawn(host)))
}

/// The text of a failure to start a Wicket.
pub open spec fn spawn_error(host: Seq<char>, error: Seq<char>) -> Seq<char> {
    "failed to spawn wicket on "@ + host + ": "@ + error
}

/// What is answered to what waits for a Wicket that cannot be started.
pub open spec fn spawn_failure(bus: BusV, host: Seq<char>, error: Seq<char>, p: PendingV) -> ActionV {
    match p {
        PendingV::Query(ticket) => ActionV::Tools(ticket, tools_text(bus)),
        PendingV::Call(call) | PendingV::Ensured(call) => ActionV::Reply(
            call.ticket,
            failed(spawn_error(host, spawn_error(host, error))),
        ),
    }
}

/// A Wicket cannot be started: what waits for it is answered.
pub open spec fn spawn_failed_turn(bus: BusV, host: Seq<char>, error: Seq<char>) -> Turn {
    match wicket(bus.wickets, host) {
        None => idle(bus),
        Some(w) => Turn {
            bus: BusV { wickets: other_wickets(bus.wickets, host), ..bus },
            actions: w.stashed.map_values(|p: PendingV| spawn_failure(bus, host, error, p)),
        },
    }
}

/// The process of a Wicket has ended: it is forgotten, and what waits for it is
/// checked again.
pub open spec fn exited_turn(bus: BusV, host: Seq<char>) -> Turn {
    match wicket(bus.wickets, host) {
        None => idle(bus),
        Some(w) => Turn {
            bus: BusV { wickets: other_wickets(bus.wickets, host), ..bus },
            actions: rechecks(w.stashed),
        },
    }
}

/// A Wicket has taken too long to connect: it counts as hung up, and what waits
/// for it is checked again.
pub open spec fn spawn_timeout_turn(bus: BusV, host: Seq<char>) -> Turn {
    match wicket(bus.wickets, host) {
        Some(w) => if w.state == WicketState::Starting {
            Turn {
                bus: BusV {
                    wickets: with_wicket(
                        bus.wickets,
                        WicketV {
                            host,
                            state: WicketState::Disconnected,
                            stashed: Seq::empty(),
                        },
                    ),
                    ..bus
                },
                actions: rechecks(w.stashed),
            }
        } else {
            idle(bus)
        },
        None => idle(bus),
    }
}

} // verus!
