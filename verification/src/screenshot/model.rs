//! The model of the screenshot routes: what each message does to them.

use crate::json::{same, Val};
use crate::screenshot::base64::{stands_for, MAX_CHUNK_BYTES};
use crate::screenshot::manifest::{
    fits, id_ok, manifest_error, operation_value, receipt_ok, MAX_MANIFEST_BYTES, MAX_PNG_BYTES,
};
use crate::serial::parsed;
use crate::text::byte_len;
use vstd::prelude::*;
use vstd::utf8::*;

verus! {

/// The most bytes that the text of one packet may have.
pub const MAX_PACKET_BYTES: usize = 96 * 1024;

/// The most bytes that all routes together may be receiving.
pub const MAX_TOTAL_BYTES: u64 = 64 * 1024 * 1024;

/// The most calls that may be routed at a time.
pub const MAX_CALLS: usize = 4;

/// The most messages of sockets that wait for the pump.
pub const INGRESS_CAPACITY: usize = 8;

/// The most messages that wait for one socket.
pub const SOCKET_QUEUE_CAPACITY: usize = 32;

/// How long admission, status and the delivery of a result may take, in
/// nanoseconds.
pub const ADMISSION_TIMEOUT: u64 = 30_000_000_000;

/// How long receiving, acknowledging and cancelling may take, in nanoseconds.
pub const CHUNK_TIMEOUT: u64 = 15_000_000_000;

/// How long a finish may take, in nanoseconds.
pub const FINISH_TIMEOUT: u64 = 60_000_000_000;

/// The last instant after which every deadline can still be expressed.
pub const LAST_INSTANT: u64 = 18_446_744_013_709_551_615;

/// Where a route stands. A chunk that is not acknowledged yet carries the offset
/// that its acknowledgement has to name.
#[derive(Clone, Copy, Debug, PartialEq, Eq, Structural)]
pub enum Phase {
    AwaitingBegin,
    Opening,
    Ready,
    Chunk(u64),
    Querying,
    Finishing,
    Cancelling,
    Done,
}

/// The model of a route.
pub struct RouteV {
    pub source: u64,
    pub writer: Option<u64>,
    pub slug: Seq<char>,
    pub operation: Seq<char>,
    pub destination: Option<Seq<char>>,
    pub attempt: Seq<char>,
    pub intent: Option<Val>,
    pub phase: Phase,
    pub offset: u64,
    pub finish_sent: bool,
    pub sequence: u64,
    pub deadline: u64,
    pub result: Option<Val>,
}

/// The model of a call and its route.
pub struct CallV {
    pub id: Seq<char>,
    pub route: RouteV,
}

/// The model of an effect of the router.
pub enum EffectV {
    Send { socket: u64, packet: Val },
    Complete { call_id: Seq<char>, packet: Val },
    Close { socket: u64 },
    Observe(Val),
}

/// The model of a packet from the source of a picture.
pub struct PacketV {
    pub what: Seq<char>,
    pub why: Seq<char>,
    pub call_id: Seq<char>,
    pub operation_id: Seq<char>,
    pub attempt_id: Seq<char>,
    pub place: Option<Seq<char>>,
    pub intent: Option<Val>,
    pub offset: Option<u64>,
    pub data: Option<Seq<char>>,
}

/// The routes after a message, and its effects.
pub struct Step {
    pub calls: Seq<CallV>,
    pub effects: Seq<EffectV>,
}

/// What is known of the sizes of the texts of a packet: whether the packet, the
/// manifest in it and the manifest in its receipt keep to their limits.
pub struct Sizes {
    pub packet: bool,
    pub intent: bool,
    pub requested: bool,
}

// ---------------------------------------------------------------------------
// Looking calls up
// ---------------------------------------------------------------------------

/// Whether a call is routed.
pub open spec fn routed(calls: Seq<CallV>, id: Seq<char>) -> bool {
    exists|i: int| 0 <= i < calls.len() && #[trigger] calls[i].id == id
}

/// The place of a routed call.
pub open spec fn index(calls: Seq<CallV>, id: Seq<char>) -> int {
    choose|i: int| 0 <= i < calls.len() && #[trigger] calls[i].id == id
}

/// The route of a routed call.
pub open spec fn route(calls: Seq<CallV>, id: Seq<char>) -> RouteV {
    calls[index(calls, id)].route
}

/// No call is routed twice.
pub open spec fn distinct(calls: Seq<CallV>) -> bool {
    forall|i: int, j: int|
        0 <= i < calls.len() && 0 <= j < calls.len() && #[trigger] calls[i].id == #[trigger] calls[j].id ==> i
            == j
}

/// The calls with another route for one of them.
pub open spec fn rerouted(calls: Seq<CallV>, id: Seq<char>, route: RouteV) -> Seq<CallV> {
    calls.update(index(calls, id), CallV { id, route })
}

/// The calls without one of them.
pub open spec fn removed(calls: Seq<CallV>, id: Seq<char>) -> Seq<CallV> {
    if routed(calls, id) {
        calls.remove(index(calls, id))
    } else {
        calls
    }
}

// ---------------------------------------------------------------------------
// Packets
// ---------------------------------------------------------------------------

/// A socket, or null.
pub open spec fn socket_value(socket: Option<u64>) -> Val {
    match socket {
        Some(s) => Val::Unsigned(s),
        None => Val::Null,
    }
}

/// What ties a command and its reply to an operation, an attempt and two sockets.
pub open spec fn binding_value(id: Seq<char>, route: RouteV) -> Val {
    Val::empty_object().with("operation"@, operation_value(route.slug, route.operation)).with(
        "attempt"@,
        Val::empty_object().with("call_id"@, Val::Text(id)).with(
            "attempt_id"@,
            Val::Text(route.attempt),
        ),
    ).with("source_socket"@, Val::Unsigned(route.source)).with(
        "writer_socket"@,
        socket_value(route.writer),
    )
}

/// The command that is forwarded to the writer.
pub open spec fn command_value(id: Seq<char>, route: RouteV, why: Seq<char>, fields: Val) -> Val {
    fields.with("what"@, Val::Text("screenshot_save"@)).with("why"@, Val::Text(why)).with(
        "binding"@,
        binding_value(id, route),
    ).with("sequence"@, Val::Unsigned(route.sequence))
}

/// The packet that is relayed to the source.
pub open spec fn result_value(
    id: Seq<char>,
    route: RouteV,
    why: Seq<char>,
    reason: Option<Seq<char>>,
) -> Val {
    let result = Val::empty_object().with("what"@, Val::Text("screenshot_save"@)).with(
        "why"@,
        Val::Text(why),
    ).with("call_id"@, Val::Text(id)).with("operation_id"@, Val::Text(route.operation)).with(
        "attempt_id"@,
        Val::Text(route.attempt),
    );
    match reason {
        Some(r) => result.with("reason"@, Val::Text(r)),
        None => result,
    }
}

/// The observation that a route was rejected.
pub open spec fn rejection(why: Seq<char>) -> Val {
    Val::empty_object().with("who"@, Val::Text("screenshot"@)).with(
        "what"@,
        Val::Text("reject_route"@),
    ).with("why"@, Val::Text(why))
}

/// A socket that breaks the protocol is observed and closed.
pub open spec fn violation(socket: u64, reason: Seq<char>) -> Seq<EffectV> {
    seq![
        EffectV::Observe(
            rejection(reason).with("how"@, Val::Text("websocket"@)).with(
                "with"@,
                Val::empty_object().with("socket"@, Val::Unsigned(socket)),
            ),
        ),
        EffectV::Close { socket },
    ]
}

/// A member of a source packet: by its name in an object, by its place in an
/// array.
pub open spec fn field(data: Val, name: Seq<char>, place: int) -> Option<Val> {
    match data {
        Val::Array(items) => if place < items.len() {
            Some(items[place])
        } else {
            None
        },
        _ => data.get(name),
    }
}

/// An optional member, which may be left out or null.
pub open spec fn optional(value: Option<Val>) -> Option<Val> {
    match value {
        Some(Val::Null) => None,
        _ => value,
    }
}

/// The names of the members of a source packet.
pub open spec fn packet_keys() -> Set<Seq<char>> {
    set![
        "what"@,
        "why"@,
        "call_id"@,
        "operation_id"@,
        "attempt_id"@,
        "where"@,
        "intent"@,
        "offset"@,
        "data"@,
    ]
}

/// Whether a value has the shape of a source packet.
pub open spec fn packet_shape(data: Val) -> bool {
    &&& match data {
        Val::Object(m) => m.dom().subset_of(packet_keys()),
        Val::Array(items) => items.len() <= 9,
        _ => false,
    }
    &&& field(data, "what"@, 0) matches Some(Val::Text(_))
    &&& field(data, "why"@, 1) matches Some(Val::Text(_))
    &&& field(data, "call_id"@, 2) matches Some(Val::Text(_))
    &&& field(data, "operation_id"@, 3) matches Some(Val::Text(_))
    &&& field(data, "attempt_id"@, 4) matches Some(Val::Text(_))
    &&& optional(field(data, "where"@, 5)) matches Some(v) ==> v is Text
    &&& optional(field(data, "offset"@, 7)) matches Some(v) ==> v is Unsigned
    &&& optional(field(data, "data"@, 8)) matches Some(v) ==> v is Text
}

/// The text of an optional member.
pub open spec fn optional_text(value: Option<Val>) -> Option<Seq<char>> {
    match optional(value) {
        Some(v) => v.as_text(),
        None => None,
    }
}

/// The source packet that a value stands for, if it stands for one.
pub open spec fn source_packet(data: Val) -> Option<PacketV> {
    if packet_shape(data) {
        Some(
            PacketV {
                what: field(data, "what"@, 0)->0->Text_0,
                why: field(data, "why"@, 1)->0->Text_0,
                call_id: field(data, "call_id"@, 2)->0->Text_0,
                operation_id: field(data, "operation_id"@, 3)->0->Text_0,
                attempt_id: field(data, "attempt_id"@, 4)->0->Text_0,
                place: optional_text(field(data, "where"@, 5)),
                intent: optional(field(data, "intent"@, 6)),
                offset: match optional(field(data, "offset"@, 7)) {
                    Some(v) => v.as_uint(),
                    None => None,
                },
                data: optional_text(field(data, "data"@, 8)),
            },
        )
    } else {
        None
    }
}

/// The sizes of the texts of a packet, as the serializer writes them.
pub open spec fn sizes_of(data: Val) -> Sizes {
    Sizes {
        packet: fits(data, MAX_PACKET_BYTES as int),
        intent: source_packet(data) matches Some(p) && p.intent matches Some(i) && fits(
            i,
            MAX_MANIFEST_BYTES as int,
        ),
        requested: fits(data.at("receipt"@).at("requested"@), MAX_MANIFEST_BYTES as int),
    }
}

// ---------------------------------------------------------------------------
// Registering, ending and time
// ---------------------------------------------------------------------------

/// Why a dispatched call is not routed, if it is not.
pub open spec fn register_error(
    calls: Seq<CallV>,
    id: Seq<char>,
    slug: Seq<char>,
    args: Val,
) -> Option<Seq<char>> {
    if args.text_at("who"@) != Some("shotgun"@) || args.text_at("f"@) != Some("screenshot_save"@) {
        Some("not a Shotgun screenshot_save call"@)
    } else if args.at("args"@).text_at("operation_id"@) is None {
        Some("screenshot_save requires a caller-known operation_id"@)
    } else if !id_ok(id) || !id_ok(slug) || !id_ok(args.at("args"@).text_at("operation_id"@)->0) {
        Some("invalid screenshot operation identity"@)
    } else if calls.len() >= MAX_CALLS {
        Some("screenshot route capacity reached"@)
    } else {
        None
    }
}

/// The route of a call that was just dispatched.
pub open spec fn fresh_route(source: u64, slug: Seq<char>, args: Val, now: u64) -> RouteV {
    RouteV {
        source,
        writer: None,
        slug,
        operation: args.at("args"@).text_at("operation_id"@)->0,
        destination: args.at("args"@).text_at("destination"@),
        attempt: Seq::empty(),
        intent: None,
        phase: Phase::AwaitingBegin,
        offset: 0,
        finish_sent: false,
        sequence: 0,
        deadline: (now + ADMISSION_TIMEOUT) as u64,
        result: None,
    }
}

/// The calls after a call was dispatched: it takes the place of an earlier one
/// of the same name.
pub open spec fn registered(
    calls: Seq<CallV>,
    id: Seq<char>,
    source: u64,
    slug: Seq<char>,
    args: Val,
    now: u64,
) -> Seq<CallV> {
    let route = fresh_route(source, slug, args, now);
    if routed(calls, id) {
        rerouted(calls, id, route)
    } else {
        calls.push(CallV { id, route })
    }
}

/// How long a phase may last.
pub open spec fn patience(phase: Phase) -> u64 {
    match phase {
        Phase::Finishing => FINISH_TIMEOUT,
        Phase::Ready | Phase::Chunk(_) | Phase::Cancelling => CHUNK_TIMEOUT,
        _ => ADMISSION_TIMEOUT,
    }
}

/// A transition: a new generation and a new deadline.
pub open spec fn advanced(route: RouteV, now: u64) -> RouteV {
    RouteV {
        sequence: (route.sequence + 1) as u64,
        deadline: (now + patience(route.phase)) as u64,
        ..route
    }
}

/// The packet with which a route ends: the outcome that is known, or else that
/// nothing was stored, or else that nothing is known.
pub open spec fn last_word(id: Seq<char>, route: RouteV, reason: Seq<char>) -> Val {
    match route.result {
        Some(result) => result,
        None => result_value(
            id,
            route,
            if route.finish_sent || route.phase == Phase::Querying {
                "unresolved"@
            } else {
                "rejected"@
            },
            Some(reason),
        ),
    }
}

/// Whether the writer holds a receive that has to be cancelled when a route ends.
pub open spec fn to_cancel(route: RouteV) -> bool {
    route.writer is Some && route.result is None && route.attempt.len() > 0 && route.phase
        != Phase::Querying && route.phase != Phase::AwaitingBegin
}

/// The effects of the end of a route.
pub open spec fn ending(call: CallV, reason: Seq<char>, relay: bool) -> Seq<EffectV> {
    let (id, route) = (call.id, call.route);
    let result = last_word(id, route, reason);
    let cancelled = if to_cancel(route) {
        let next = RouteV { sequence: (route.sequence + 1) as u64, ..route };
        seq![
            EffectV::Send {
                socket: route.writer->0,
                packet: command_value(id, next, "cancel"@, Val::empty_object()),
            },
        ]
    } else {
        Seq::empty()
    };
    let observed = EffectV::Observe(
        rejection(reason).with("how"@, Val::Text("websocket"@)).with(
            "with"@,
            Val::empty_object().with("call_id"@, Val::Text(id)).with(
                "operation_id"@,
                Val::Text(route.operation),
            ).with("source_socket"@, Val::Unsigned(route.source)).with(
                "writer_socket"@,
                socket_value(route.writer),
            ).with("disposition"@, result.at("why"@)),
        ),
    );
    let relayed = if relay {
        seq![EffectV::Send { socket: route.source, packet: result }]
    } else {
        Seq::empty()
    };
    cancelled.push(observed) + relayed.push(EffectV::Complete { call_id: id, packet: result })
}

/// The end of a route.
pub open spec fn end_step(calls: Seq<CallV>, id: Seq<char>, reason: Seq<char>, relay: bool) -> Step {
    if routed(calls, id) {
        let i = index(calls, id);
        Step { calls: calls.remove(i), effects: ending(calls[i], reason, relay) }
    } else {
        Step { calls, effects: Seq::empty() }
    }
}

/// The effects of the ends of several routes, one after the other.
pub open spec fn endings(calls: Seq<CallV>, reason: Seq<char>) -> Seq<EffectV>
    decreases calls.len(),
{
    if calls.len() == 0 {
        Seq::empty()
    } else {
        endings(calls.drop_last(), reason) + ending(calls.last(), reason, true)
    }
}

/// Whether a route hangs on a socket.
pub open spec fn uses(call: CallV, socket: u64) -> bool {
    call.route.source == socket || call.route.writer == Some(socket)
}

/// A socket is gone: the routes that hang on it end.
pub open spec fn disconnect_step(calls: Seq<CallV>, socket: u64) -> Step {
    Step {
        calls: calls.filter(|c: CallV| !uses(c, socket)),
        effects: endings(
            calls.filter(|c: CallV| uses(c, socket)),
            "screenshot route endpoint disconnected"@,
        ),
    }
}

/// The routes whose deadlines have passed end.
pub open spec fn expire_step(calls: Seq<CallV>, now: u64) -> Step {
    Step {
        calls: calls.filter(|c: CallV| c.route.deadline > now),
        effects: endings(
            calls.filter(|c: CallV| c.route.deadline <= now),
            "screenshot route deadline elapsed"@,
        ),
    }
}

/// A timer of one generation fires: it ends the route only if the route is still
/// of that generation and its deadline has passed.
pub open spec fn timeout_step(calls: Seq<CallV>, id: Seq<char>, generation: u64, now: u64) -> Step {
    if routed(calls, id) && route(calls, id).sequence == generation && route(calls, id).deadline
        <= now {
        end_step(calls, id, "screenshot route deadline elapsed"@, true)
    } else {
        Step { calls, effects: Seq::empty() }
    }
}

// ---------------------------------------------------------------------------
// Packets from the source
// ---------------------------------------------------------------------------

/// The bytes that a manifest announces.
pub open spec fn announced(route: RouteV) -> nat {
    match route.intent {
        Some(v) => match v.uint_at("bytes"@) {
            Some(n) => n as nat,
            None => 0,
        },
        None => 0,
    }
}

/// The bytes that all live routes have announced.
pub open spec fn admitted(calls: Seq<CallV>) -> nat
    decreases calls.len(),
{
    if calls.len() == 0 {
        0
    } else {
        admitted(calls.drop_last()) + if calls.last().route.phase == Phase::Done {
            0
        } else {
            announced(calls.last().route)
        }
    }
}

/// Whether a call is a live attempt at the same operation as another.
pub open spec fn rival(call: CallV, me: CallV) -> bool {
    call.id != me.id && call.route.slug == me.route.slug && call.route.operation
        == me.route.operation && call.route.phase != Phase::Done
}

/// Why a live attempt stands in the way of a new one, if it does.
pub open spec fn objection(other: RouteV, packet: PacketV) -> Option<Seq<char>> {
    if other.finish_sent || other.phase == Phase::Querying || other.phase == Phase::Cancelling {
        Some("operation has an outstanding finish/status/cancel; query status"@)
    } else if (other.intent matches Some(i) && !(packet.intent matches Some(j) && same(i, j)))
        || other.attempt == packet.attempt_id {
        Some("replacement conflicts with the live intent or needs a new attempt ID"@)
    } else {
        None
    }
}

/// The first objection of the live attempts at the same operation.
pub open spec fn first_objection(calls: Seq<CallV>, me: CallV, packet: PacketV) -> Option<Seq<char>>
    decreases calls.len(),
{
    if calls.len() == 0 {
        None
    } else {
        match first_objection(calls.drop_last(), me, packet) {
            Some(reason) => Some(reason),
            None => if rival(calls.last(), me) {
                objection(calls.last().route, packet)
            } else {
                None
            },
        }
    }
}

/// The calls that keep what they announced when a new attempt replaces its rivals.
pub open spec fn bystanders(calls: Seq<CallV>, me: CallV) -> Seq<CallV> {
    calls.filter(|c: CallV| c.id != me.id && !rival(c, me))
}

/// What becomes of a command from the source.
pub enum Outcome {
    /// The source broke the protocol.
    Violate(Seq<char>),
    /// The route ends.
    End(Seq<char>),
    /// The command goes to the writer, with these fields, and the route enters
    /// this phase.
    Forward(Phase, Val),
}

/// The route and the outcome of a command.
pub struct Ruling {
    pub route: RouteV,
    pub outcome: Outcome,
}

/// A route at a begin. One that can take it forgets an earlier status before
/// the begin is judged: a status cannot stand in for the outcome of a later
/// attempt.
pub open spec fn begun(route: RouteV) -> RouteV {
    if route.phase == Phase::AwaitingBegin || route.phase == Phase::Ready {
        RouteV { result: None, ..route }
    } else {
        route
    }
}

/// A fresh receive. It has forgotten an earlier status before it is judged.
pub open spec fn begin_ruling(
    route: RouteV,
    packet: PacketV,
    elsewhere: nat,
    intent_fits: bool,
) -> Ruling {
    let cleared = RouteV { result: None, ..route };
    let violate = |reason: Seq<char>|
        Ruling { route: cleared, outcome: Outcome::Violate(reason) };
    let end = |reason: Seq<char>| Ruling { route: cleared, outcome: Outcome::End(reason) };
    match packet.intent {
        None => violate("begin needs a PNG manifest"@),
        Some(intent) => if packet.offset is Some || packet.data is Some || packet.place != Some(
            "localhost"@,
        ) {
            violate("invalid screenshot begin fields or writer location"@)
        } else if manifest_error(intent, intent_fits) is Some {
            end(manifest_error(intent, intent_fits)->0)
        } else if route.destination is None || intent.text_at("destination"@) != route.destination {
            end("destination differs from the dispatched save"@)
        } else if route.intent matches Some(earlier) && !same(earlier, intent) {
            end("operation already binds a different manifest"@)
        } else if elsewhere + intent.uint_at("bytes"@)->0 > MAX_TOTAL_BYTES {
            end("screenshot aggregate byte limit reached"@)
        } else if route.phase == Phase::Ready && packet.attempt_id == route.attempt {
            violate("replacement requires a new attempt ID"@)
        } else {
            Ruling {
                route: RouteV {
                    attempt: packet.attempt_id,
                    intent: Some(intent),
                    offset: 0,
                    ..cleared
                },
                outcome: Outcome::Forward(
                    Phase::Opening,
                    Val::empty_object().with("intent"@, intent),
                ),
            }
        },
    }
}

/// A question about the operation.
pub open spec fn status_ruling(route: RouteV, packet: PacketV) -> Ruling {
    if packet.intent is Some || packet.offset is Some || packet.data is Some || packet.place
        != Some("localhost"@) {
        Ruling { route, outcome: Outcome::Violate("invalid status fields"@) }
    } else {
        Ruling {
            route: RouteV { attempt: packet.attempt_id, result: None, ..route },
            outcome: Outcome::Forward(Phase::Querying, Val::empty_object()),
        }
    }
}

/// The bytes that a chunk stands for; zero where it is no canonical base64 within
/// the limit.
pub open spec fn chunk_len(data: Seq<char>) -> int {
    if exists|n: int| stands_for(encode_utf8(data), n) {
        choose|n: int| stands_for(encode_utf8(data), n)
    } else {
        0
    }
}

/// The next bytes of the picture.
pub open spec fn chunk_ruling(route: RouteV, packet: PacketV) -> Ruling {
    let violate = |reason: Seq<char>| Ruling { route, outcome: Outcome::Violate(reason) };
    if packet.intent is Some || packet.place is Some {
        violate("invalid chunk fields"@)
    } else if packet.data is None {
        violate("missing chunk data"@)
    } else if chunk_len(packet.data->0) == 0 {
        violate("invalid or oversized base64 chunk"@)
    } else {
        let end = route.offset + chunk_len(packet.data->0);
        if packet.offset != Some(route.offset) || end > announced(route) {
            violate("chunk offset or manifest byte count differs"@)
        } else {
            Ruling {
                route,
                outcome: Outcome::Forward(
                    Phase::Chunk(end as u64),
                    Val::empty_object().with("offset"@, Val::Unsigned(route.offset)).with(
                        "data"@,
                        Val::Text(packet.data->0),
                    ),
                ),
            }
        }
    }
}

/// All bytes of the picture have been sent.
pub open spec fn finish_ruling(route: RouteV, packet: PacketV) -> Ruling {
    if packet.intent is Some || packet.offset is Some || packet.data is Some || packet.place is Some
        || route.offset != announced(route) {
        Ruling {
            route,
            outcome: Outcome::Violate(
                "finish requires exactly the admitted bytes and no extra fields"@,
            ),
        }
    } else {
        Ruling {
            route: RouteV { finish_sent: true, ..route },
            outcome: Outcome::Forward(Phase::Finishing, Val::empty_object()),
        }
    }
}

/// The picture is not wanted any more.
pub open spec fn cancel_ruling(route: RouteV, packet: PacketV) -> Ruling {
    if packet.intent is Some || packet.offset is Some || packet.data is Some || packet.place is Some {
        Ruling { route, outcome: Outcome::Violate("invalid cancel fields"@) }
    } else {
        Ruling { route, outcome: Outcome::Forward(Phase::Cancelling, Val::empty_object()) }
    }
}

/// Whether a receive can be cancelled.
pub open spec fn cancellable(phase: Phase) -> bool {
    match phase {
        Phase::Opening | Phase::Ready | Phase::Chunk(_) | Phase::Finishing => true,
        _ => false,
    }
}

/// What becomes of a command of the current attempt.
pub open spec fn ruling(
    route: RouteV,
    packet: PacketV,
    elsewhere: nat,
    intent_fits: bool,
) -> Ruling {
    if packet.why == "begin"@ && (route.phase == Phase::AwaitingBegin || route.phase
        == Phase::Ready) {
        begin_ruling(route, packet, elsewhere, intent_fits)
    } else if packet.why == "status"@ && route.phase == Phase::AwaitingBegin {
        status_ruling(route, packet)
    } else if packet.why == "chunk"@ && route.phase == Phase::Ready {
        chunk_ruling(route, packet)
    } else if packet.why == "finish"@ && route.phase == Phase::Ready {
        finish_ruling(route, packet)
    } else if packet.why == "cancel"@ && cancellable(route.phase) {
        cancel_ruling(route, packet)
    } else {
        Ruling {
            route,
            outcome: Outcome::Violate("screenshot command violates phase or one-chunk credit"@),
        }
    }
}

/// The result of a temporary receive that a fresh retry replaces.
pub open spec fn replaced_result(call: CallV) -> Val {
    result_value(
        call.id,
        call.route,
        "rejected"@,
        Some("temporary receive superseded by a fresh retry"@),
    )
}

/// A temporary receive that a fresh retry replaces. The operation is not
/// cancelled: the writer fences the earlier receive when it processes the retry.
pub open spec fn replaced(call: CallV, now: u64) -> CallV {
    CallV {
        id: call.id,
        route: advanced(
            RouteV { result: Some(replaced_result(call)), phase: Phase::Done, ..call.route },
            now,
        ),
    }
}

/// The effects of the replacement of one temporary receive.
pub open spec fn replacement(call: CallV, by: Seq<char>) -> Seq<EffectV> {
    let result = replaced_result(call);
    seq![
        EffectV::Send { socket: call.route.source, packet: result },
        EffectV::Complete { call_id: call.id, packet: result },
        EffectV::Observe(
            rejection("temporary receive superseded by retry"@).with(
                "with"@,
                Val::empty_object().with("call_id"@, Val::Text(call.id)).with(
                    "replacement_call_id"@,
                    Val::Text(by),
                ),
            ),
        ),
    ]
}

/// The effects of the replacement of the live attempts at the same operation.
pub open spec fn replacements(calls: Seq<CallV>, me: CallV) -> Seq<EffectV>
    decreases calls.len(),
{
    if calls.len() == 0 {
        Seq::empty()
    } else {
        let before = replacements(calls.drop_last(), me);
        if rival(calls.last(), me) {
            before + replacement(calls.last(), me.id)
        } else {
            before
        }
    }
}

/// A command goes to the writer: the route advances, and a fresh receive replaces
/// the live attempts at the same operation.
pub open spec fn forward_step(
    calls: Seq<CallV>,
    me: CallV,
    ruled: RouteV,
    why: Seq<char>,
    phase: Phase,
    fields: Val,
    writer: u64,
    now: u64,
) -> Step {
    let fresh = why == "begin"@;
    let moved = advanced(RouteV { writer: Some(writer), phase, ..ruled }, now);
    let sent = EffectV::Send {
        socket: writer,
        packet: command_value(me.id, moved, why, fields),
    };
    Step {
        calls: calls.map_values(
            |c: CallV|
                if c.id == me.id {
                    CallV { id: me.id, route: moved }
                } else if fresh && rival(c, me) {
                    replaced(c, now)
                } else {
                    c
                },
        ),
        effects: (if fresh {
            replacements(calls, me)
        } else {
            Seq::empty()
        }).push(sent),
    }
}

/// Whether a packet belongs to the route that it names.
pub open spec fn bound(route: RouteV, socket: u64, packet: PacketV) -> bool {
    route.source == socket && route.operation == packet.operation_id && id_ok(packet.attempt_id)
        && packet.what == "screenshot_save"@
}

/// Whether a packet is a late one of an earlier attempt.
pub open spec fn stale(route: RouteV, packet: PacketV) -> bool {
    route.phase == Phase::Done || (packet.why != "begin"@ && packet.why != "status"@
        && packet.attempt_id != route.attempt)
}

/// A packet from the source of a picture.
pub open spec fn source_step(
    calls: Seq<CallV>,
    socket: u64,
    packet: PacketV,
    intent_fits: bool,
    writers: Seq<u64>,
    now: u64,
) -> Step {
    let id = packet.call_id;
    if !routed(calls, id) {
        Step { calls, effects: Seq::empty() }
    } else {
        let me = calls[index(calls, id)];
        let objected = if packet.why == "begin"@ {
            first_objection(calls, me, packet)
        } else {
            None
        };
        if !bound(me.route, socket, packet) {
            Step {
                calls,
                effects: violation(socket, "screenshot source/call/operation binding differs"@),
            }
        } else if objected is Some {
            end_step(rerouted(calls, id, begun(me.route)), id, objected->0, true)
        } else if stale(me.route, packet) {
            Step { calls, effects: Seq::empty() }
        } else {
            let elsewhere = admitted(bystanders(calls, me));
            let ruled = ruling(me.route, packet, elsewhere, intent_fits);
            match ruled.outcome {
                Outcome::Violate(reason) => Step {
                    calls: rerouted(calls, id, ruled.route),
                    effects: violation(socket, reason),
                },
                Outcome::End(reason) => end_step(
                    rerouted(calls, id, ruled.route),
                    id,
                    reason,
                    true,
                ),
                Outcome::Forward(phase, fields) => if ruled.route.writer is None && writers.len()
                    != 1 {
                    end_step(
                        rerouted(calls, id, ruled.route),
                        id,
                        "screenshot requires exactly one connected local Wicket"@,
                        true,
                    )
                } else {
                    let writer = match ruled.route.writer {
                        Some(w) => w,
                        None => writers[0],
                    };
                    forward_step(calls, me, ruled.route, packet.why, phase, fields, writer, now)
                },
            }
        }
    }
}

// ---------------------------------------------------------------------------
// Replies of the writer
// ---------------------------------------------------------------------------

/// The members that a reply may have.
pub open spec fn reply_keys() -> Set<Seq<char>> {
    set![
        "what"@,
        "why"@,
        "binding"@,
        "sequence"@,
        "next_offset"@,
        "receipt"@,
        "reason"@,
    ]
}

/// What becomes of a reply that answers the outstanding command.
pub enum Answer {
    /// The writer broke the protocol.
    Refuse(Seq<char>),
    /// The result is relayed to the source.
    Relay(Val),
}

/// The route and the answer.
pub struct Answered {
    pub route: RouteV,
    pub answer: Answer,
}

/// Whether a terminal outcome can answer the outstanding command.
pub open spec fn answerable(phase: Phase) -> bool {
    match phase {
        Phase::Opening | Phase::Querying | Phase::Finishing | Phase::Cancelling | Phase::Chunk(
            _,
        ) => true,
        _ => false,
    }
}

/// A status: the operation is not known to the writer, or it is being received.
pub open spec fn status_answer(id: Seq<char>, route: RouteV, data: Val, why: Seq<char>) -> Answered {
    let next = RouteV { phase: Phase::AwaitingBegin, ..route };
    let result = result_value(id, route, why, None);
    if why == "receiving"@ {
        match data.uint_at("next_offset"@) {
            Some(n) if n <= MAX_PNG_BYTES => Answered {
                route: next,
                answer: Answer::Relay(result.with("next_offset"@, Val::Unsigned(n))),
            },
            _ => Answered { route: next, answer: Answer::Refuse("invalid receiving offset"@) },
        }
    } else {
        Answered { route: next, answer: Answer::Relay(result) }
    }
}

/// A terminal outcome with its receipt.
pub open spec fn terminal_answer(
    id: Seq<char>,
    route: RouteV,
    data: Val,
    why: Seq<char>,
    requested_fits: bool,
) -> Answered {
    let receipt = data.at("receipt"@);
    if answerable(route.phase) && receipt_ok(
        receipt,
        why,
        route.slug,
        route.operation,
        route.intent,
        route.destination,
        requested_fits,
    ) {
        Answered {
            route: RouteV { phase: Phase::Done, ..route },
            answer: Answer::Relay(result_value(id, route, why, None).with("receipt"@, receipt)),
        }
    } else {
        Answered {
            route,
            answer: Answer::Refuse("writer terminal receipt does not match the operation"@),
        }
    }
}

/// A refusal is about one command. Once a finish was sent it cannot establish
/// that nothing was published.
pub open spec fn refusal_answer(id: Seq<char>, route: RouteV, why: Seq<char>) -> Answered {
    let result = result_value(
        id,
        route,
        if route.finish_sent {
            "unresolved"@
        } else {
            why
        },
        None,
    ).with(
        "reason"@,
        Val::Text(
            if why == "rejected"@ {
                "Wicket refused the screenshot command"@
            } else {
                "Wicket could not establish a terminal outcome; reconcile by operation ID"@
            },
        ),
    );
    Answered { route: RouteV { phase: Phase::Done, ..route }, answer: Answer::Relay(result) }
}

/// What becomes of a reply, by its disposition.
pub open spec fn answered(
    id: Seq<char>,
    route: RouteV,
    data: Val,
    why: Seq<char>,
    requested_fits: bool,
) -> Answered {
    let refuse = |reason: Seq<char>| Answered { route, answer: Answer::Refuse(reason) };
    let result = result_value(id, route, why, None);
    if why == "ready"@ && route.phase == Phase::Opening && data.uint_at("next_offset"@) == Some(
        0u64,
    ) {
        Answered {
            route: RouteV { phase: Phase::Ready, ..route },
            answer: Answer::Relay(result.with("next_offset"@, Val::Unsigned(0))),
        }
    } else if why == "ack"@ {
        match route.phase {
            Phase::Chunk(end) => if data.uint_at("next_offset"@) == Some(end) {
                Answered {
                    route: RouteV { offset: end, phase: Phase::Ready, ..route },
                    answer: Answer::Relay(result.with("next_offset"@, Val::Unsigned(end))),
                }
            } else {
                refuse("ack offset differs from forwarded chunk"@)
            },
            _ => refuse("ack has no outstanding chunk"@),
        }
    } else if (why == "unknown"@ || why == "receiving"@) && route.phase == Phase::Querying {
        status_answer(id, route, data, why)
    } else if why == "stored"@ || why == "published"@ || why == "failed"@ || why == "aborted"@ {
        terminal_answer(id, route, data, why, requested_fits)
    } else if why == "rejected"@ || why == "unresolved"@ {
        refusal_answer(id, route, why)
    } else {
        refuse("writer reply violates screenshot phase"@)
    }
}

/// Whether a result is kept as the outcome of its call.
pub open spec fn keeps_result(route: RouteV, why: Seq<char>) -> bool {
    route.phase == Phase::Done || why == "unknown"@ || why == "receiving"@
}

/// Why a reply to a call is refused before its disposition is looked at, if it
/// is.
pub open spec fn reply_error(id: Seq<char>, route: RouteV, data: Val) -> Option<Seq<char>> {
    if data.text_at("what"@) != Some("screenshot_save"@) || !same(
        data.at("binding"@),
        binding_value(id, route),
    ) {
        Some("reply attempt binding differs"@)
    } else if data.uint_at("sequence"@) != Some(route.sequence) || route.phase == Phase::Done {
        Some("writer reply has no outstanding command"@)
    } else if !(data matches Val::Object(m) && m.dom().subset_of(reply_keys())) {
        Some("writer reply has unexpected fields"@)
    } else if data.text_at("why"@) is None {
        Some("writer reply lacks disposition"@)
    } else {
        None
    }
}

/// A reply of the writer.
pub open spec fn writer_step(
    calls: Seq<CallV>,
    socket: u64,
    data: Val,
    requested_fits: bool,
    now: u64,
) -> Step {
    let nothing = Step { calls, effects: Seq::empty() };
    let refuse = |reason: Seq<char>| Step { calls, effects: violation(socket, reason) };
    match data.at("binding"@).at("attempt"@).text_at("call_id"@) {
        None => refuse("writer reply lacks call binding"@),
        Some(id) => if !routed(calls, id) {
            nothing
        } else {
            let mine = route(calls, id);
            if mine.writer != Some(socket) {
                refuse("reply is not from the selected writer"@)
            } else {
                match data.uint_at("sequence"@) {
                    None => refuse("writer reply lacks sequence"@),
                    Some(n) => if n < mine.sequence {
                        nothing
                    } else if reply_error(id, mine, data) is Some {
                        refuse(reply_error(id, mine, data)->0)
                    } else {
                        let why = data.text_at("why"@)->0;
                        let reply = answered(id, mine, data, why, requested_fits);
                        match reply.answer {
                            Answer::Refuse(reason) => Step {
                                calls: rerouted(calls, id, reply.route),
                                effects: violation(socket, reason),
                            },
                            Answer::Relay(result) => {
                                let kept = RouteV {
                                    result: if keeps_result(reply.route, why) {
                                        Some(result)
                                    } else {
                                        mine.result
                                    },
                                    ..reply.route
                                };
                                Step {
                                    calls: rerouted(calls, id, advanced(kept, now)),
                                    effects: seq![
                                        EffectV::Send { socket: mine.source, packet: result },
                                    ],
                                }
                            },
                        }
                    },
                }
            }
        },
    }
}

/// A packet from a socket: a reply of the writer where it carries a binding, and
/// else a command from the source.
pub open spec fn packet_step(
    calls: Seq<CallV>,
    socket: u64,
    data: Val,
    sizes: Sizes,
    writers: Seq<u64>,
    now: u64,
) -> Step {
    if !sizes.packet {
        Step { calls, effects: violation(socket, "screenshot packet exceeds limit"@) }
    } else if data.get("binding"@) is Some {
        writer_step(calls, socket, data, sizes.requested, now)
    } else {
        match source_packet(data) {
            None => Step { calls, effects: violation(socket, "invalid screenshot source packet"@) },
            Some(packet) => source_step(calls, socket, packet, sizes.intent, writers, now),
        }
    }
}

/// Why the response of a tool is not taken, if it is not. `output` is the value
/// that the response holds, if it is within the limit and holds one.
pub open spec fn tool_error(
    calls: Seq<CallV>,
    id: Seq<char>,
    output: Option<Val>,
) -> Option<Seq<char>> {
    if !routed(calls, id) {
        Some("unknown screenshot call"@)
    } else if route(calls, id).result is None {
        Some("no writer outcome has been received"@)
    } else if !(output matches Some(v) && same(v, route(calls, id).result->0)) {
        Some("tool response differs from the writer outcome"@)
    } else {
        None
    }
}

/// The value that the response of a tool holds, if it is within the limit of a
/// packet and holds one.
pub open spec fn held_output(output: Seq<char>) -> Option<Val> {
    if byte_len(output) <= MAX_PACKET_BYTES {
        parsed(output)
    } else {
        None
    }
}

// ---------------------------------------------------------------------------
// What every step keeps
// ---------------------------------------------------------------------------

/// A route is sound: its manifest is valid, it never holds more bytes than the
/// manifest announces, one chunk at most is outstanding, and every phase but the
/// first has a writer and an attempt.
pub open spec fn sound_route(route: RouteV) -> bool {
    &&& route.intent matches Some(v) ==> manifest_error(v, true) is None
    &&& match route.phase {
        Phase::Opening | Phase::Ready | Phase::Finishing | Phase::Cancelling | Phase::Chunk(_) => {
            &&& route.intent is Some
            &&& route.writer is Some
            &&& route.result is None
        },
        Phase::Querying => route.writer is Some && route.intent is None && route.result is None,
        Phase::AwaitingBegin => route.intent is None,
        Phase::Done => route.result is Some,
    }
    &&& route.writer is Some ==> id_ok(route.attempt)
    &&& route.offset <= announced(route)
    &&& route.phase matches Phase::Chunk(end) ==> route.offset < end <= announced(route)
        && end - route.offset <= MAX_CHUNK_BYTES
    &&& route.finish_sent ==> {
        &&& route.intent is Some
        &&& route.offset == announced(route)
        &&& route.phase == Phase::Finishing || route.phase == Phase::Cancelling || route.phase
            == Phase::Done
    }
    &&& route.phase == Phase::Finishing ==> route.finish_sent
}

/// The routes are sound: few enough, distinct, each of them sound, and together
/// within the limit of admitted bytes.
pub open spec fn sound(calls: Seq<CallV>) -> bool {
    &&& calls.len() <= MAX_CALLS
    &&& distinct(calls)
    &&& forall|i: int| 0 <= i < calls.len() ==> sound_route(#[trigger] calls[i].route)
    &&& admitted(calls) <= MAX_TOTAL_BYTES
}

/// The latest generation of the routes.
pub open spec fn generation(calls: Seq<CallV>) -> nat
    decreases calls.len(),
{
    if calls.len() == 0 {
        0
    } else {
        let before = generation(calls.drop_last());
        let last = calls.last().route.sequence as nat;
        if before < last {
            last
        } else {
            before
        }
    }
}

/// No route is of a later generation than the latest.
pub(crate) proof fn lemma_generation(calls: Seq<CallV>, i: int)
    requires
        0 <= i < calls.len(),
    ensures
        calls[i].route.sequence <= generation(calls),
    decreases calls.len(),
{
    if i < calls.len() - 1 {
        lemma_generation(calls.drop_last(), i);
    }
}

/// The latest generation is that of some route.
pub(crate) proof fn lemma_generation_within(calls: Seq<CallV>, n: nat)
    requires
        forall|i: int| 0 <= i < calls.len() ==> (#[trigger] calls[i].route).sequence <= n,
    ensures
        generation(calls) <= n,
    decreases calls.len(),
{
    if calls.len() > 0 {
        assert forall|i: int| 0 <= i < calls.drop_last().len() implies (
        #[trigger] calls.drop_last()[i].route).sequence <= n by {
            assert(calls.drop_last()[i] == calls[i]);
        }
        lemma_generation_within(calls.drop_last(), n);
    }
}

/// The objection of a prefix of the calls is that of the calls.
pub(crate) proof fn lemma_objection_stays(calls: Seq<CallV>, me: CallV, packet: PacketV, n: int)
    requires
        0 <= n <= calls.len(),
        first_objection(calls.take(n), me, packet) is Some,
    ensures
        first_objection(calls, me, packet) == first_objection(calls.take(n), me, packet),
    decreases calls.len() - n,
{
    if n == calls.len() {
        assert(calls.take(n) =~= calls);
    } else {
        assert(calls.take(n + 1).drop_last() =~= calls.take(n));
        lemma_objection_stays(calls, me, packet, n + 1);
    }
}

/// Calls with the same identities are distinct together.
pub(crate) proof fn lemma_ids_are_kept(before: Seq<CallV>, after: Seq<CallV>)
    requires
        distinct(before),
        before.len() == after.len(),
        forall|i: int| 0 <= i < before.len() ==> #[trigger] after[i].id == before[i].id,
    ensures
        distinct(after),
{
    assert forall|i: int, j: int|
        0 <= i < after.len() && 0 <= j < after.len() && #[trigger] after[i].id == #[trigger] after[j].id implies i
        == j by {
        assert(before[i].id == before[j].id);
    }
}

} // verus!
