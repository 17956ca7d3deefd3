//! The router of screenshot saves.

use crate::json::{same, Json, Val};
use crate::protocol::text_view;
use crate::screenshot::base64::{decoded_chunk_len, law_decoding_is_unique, stands_for};
use crate::screenshot::laws::{
    law_disconnecting_keeps_routes_sound, law_ending_keeps_routes_sound,
    law_expiring_keeps_routes_sound, law_packets_keep_routes_sound,
    law_registering_keeps_routes_sound,
};
use crate::screenshot::manifest::{
    has_only, judge_intent, judge_receipt, names, operation_json, valid_id, written_within,
    MAX_MANIFEST_BYTES, MAX_PNG_BYTES,
};
use crate::screenshot::model::{
    admitted, advanced, announced, answered, begin_ruling, begun, binding_value, bound, bystanders,
    chunk_len, chunk_ruling, command_value, disconnect_step, distinct, end_step, ending, endings,
    expire_step, field, first_objection, forward_step, fresh_route, generation, held_output, index,
    lemma_generation, lemma_generation_within, lemma_ids_are_kept, lemma_objection_stays, optional,
    optional_text, packet_keys, packet_step, register_error, registered, rejection, removed,
    replaced, replacement, replacements, reply_error, reply_keys, rerouted, result_value, rival,
    route, routed, ruling, sizes_of, socket_value, sound, sound_route, source_packet, source_step,
    status_ruling, terminal_answer, timeout_step, tool_error, uses, violation, writer_step, Answer,
    Answered, CallV, EffectV, Outcome, PacketV, Phase, RouteV, Ruling, Sizes, Step,
    ADMISSION_TIMEOUT, CHUNK_TIMEOUT, FINISH_TIMEOUT, LAST_INSTANT, MAX_CALLS, MAX_PACKET_BYTES,
    MAX_TOTAL_BYTES,
};
use crate::serial::read;
use crate::text::{bytes_in, same_text};
use vstd::prelude::*;
use vstd::string::*;

verus! {

/// What the owner of the router has to do.
#[derive(Debug)]
pub enum Effect {
    /// Send a packet to a socket.
    Send { socket: u64, packet: Json },
    /// Complete a dispatched call with a packet.
    Complete { call_id: String, packet: Json },
    /// Close a socket that broke the protocol.
    Close { socket: u64 },
    /// Record a fact.
    Observe(Json),
}

impl Effect {
    pub open spec fn view(&self) -> EffectV {
        match self {
            Effect::Send { socket, packet } => EffectV::Send { socket: *socket, packet: packet@ },
            Effect::Complete { call_id, packet } => EffectV::Complete {
                call_id: call_id@,
                packet: packet@,
            },
            Effect::Close { socket } => EffectV::Close { socket: *socket },
            Effect::Observe(fact) => EffectV::Observe(fact@),
        }
    }
}

/// The models of some effects.
pub open spec fn seen(effects: Seq<Effect>) -> Seq<EffectV> {
    effects.map_values(|e: Effect| e@)
}

/// The model of an optional value.
pub open spec fn json_view(value: Option<Json>) -> Option<Val> {
    match value {
        Some(v) => Some(v@),
        None => None,
    }
}

/// As many bytes as the largest pictures of all calls have together.
const MOST_BYTES: u64 = 0x800_0000;

struct Route {
    source: u64,
    writer: Option<u64>,
    slug: String,
    operation: String,
    destination: Option<String>,
    attempt: String,
    intent: Option<Json>,
    phase: Phase,
    offset: u64,
    finish_sent: bool,
    sequence: u64,
    deadline: u64,
    result: Option<Json>,
}

impl Route {
    spec fn view(&self) -> RouteV {
        RouteV {
            source: self.source,
            writer: self.writer,
            slug: self.slug@,
            operation: self.operation@,
            destination: text_view(self.destination),
            attempt: self.attempt@,
            intent: json_view(self.intent),
            phase: self.phase,
            offset: self.offset,
            finish_sent: self.finish_sent,
            sequence: self.sequence,
            deadline: self.deadline,
            result: json_view(self.result),
        }
    }
}

struct Entry {
    id: String,
    route: Route,
}

impl Entry {
    spec fn view(&self) -> CallV {
        CallV { id: self.id@, route: self.route@ }
    }
}

/// The routes of the dispatched calls, in the order of their dispatch.
pub struct Router {
    calls: Vec<Entry>,
}

struct SourcePacket {
    what: String,
    why: String,
    call_id: String,
    operation_id: String,
    attempt_id: String,
    place: Option<String>,
    intent: Option<Json>,
    offset: Option<u64>,
    data: Option<String>,
}

impl SourcePacket {
    spec fn view(&self) -> PacketV {
        PacketV {
            what: self.what@,
            why: self.why@,
            call_id: self.call_id@,
            operation_id: self.operation_id@,
            attempt_id: self.attempt_id@,
            place: text_view(self.place),
            intent: json_view(self.intent),
            offset: self.offset,
            data: text_view(self.data),
        }
    }
}

/// What becomes of a command.
enum Decision {
    Violate(&'static str),
    End(&'static str),
    Forward(Phase, Json),
}

impl Decision {
    spec fn view(&self) -> Outcome {
        match self {
            Decision::Violate(reason) => Outcome::Violate(reason@),
            Decision::End(reason) => Outcome::End(reason@),
            Decision::Forward(phase, fields) => Outcome::Forward(*phase, fields@),
        }
    }
}

// ---------------------------------------------------------------------------
// Building packets
// ---------------------------------------------------------------------------

fn socket_json(socket: Option<u64>) -> (value: Json)
    ensures
        value@ == socket_value(socket),
{
    match socket {
        Some(s) => Json::Unsigned(s),
        None => Json::Null,
    }
}

fn binding(id: &str, route: &Route) -> (value: Json)
    ensures
        value@ == binding_value(id@, route@),
{
    Json::object().with(
        "operation",
        operation_json(route.slug.as_str(), route.operation.as_str()),
    ).with(
        "attempt",
        Json::object().with("call_id", Json::text(id)).with(
            "attempt_id",
            Json::text(route.attempt.as_str()),
        ),
    ).with("source_socket", Json::Unsigned(route.source)).with(
        "writer_socket",
        socket_json(route.writer),
    )
}

fn command(id: &str, route: &Route, why: &str, fields: Json) -> (value: Json)
    ensures
        value@ == command_value(id@, route@, why@, fields@),
{
    fields.with("what", Json::text("screenshot_save")).with("why", Json::text(why)).with(
        "binding",
        binding(id, route),
    ).with("sequence", Json::Unsigned(route.sequence))
}

fn result_packet(id: &str, route: &Route, why: &str, reason: Option<&str>) -> (value: Json)
    ensures
        value@ == result_value(
            id@,
            route@,
            why@,
            match reason {
                Some(r) => Some(r@),
                None => None,
            },
        ),
{
    let result = Json::object().with("what", Json::text("screenshot_save")).with(
        "why",
        Json::text(why),
    ).with("call_id", Json::text(id)).with(
        "operation_id",
        Json::text(route.operation.as_str()),
    ).with("attempt_id", Json::text(route.attempt.as_str()));
    match reason {
        Some(r) => result.with("reason", Json::text(r)),
        None => result,
    }
}

fn rejection_json(why: &str) -> (value: Json)
    ensures
        value@ == rejection(why@),
{
    Json::object().with("who", Json::text("screenshot")).with(
        "what",
        Json::text("reject_route"),
    ).with("why", Json::text(why))
}

fn violate(socket: u64, reason: &str) -> (effects: Vec<Effect>)
    ensures
        seen(effects@) == violation(socket, reason@),
{
    let fact = rejection_json(reason).with("how", Json::text("websocket")).with(
        "with",
        Json::object().with("socket", Json::Unsigned(socket)),
    );
    let mut effects: Vec<Effect> = Vec::new();
    effects.push(Effect::Observe(fact));
    effects.push(Effect::Close { socket });
    assert(seen(effects@) =~= violation(socket, reason@));
    effects
}

fn nothing() -> (effects: Vec<Effect>)
    ensures
        seen(effects@) == Seq::<EffectV>::empty(),
{
    let effects: Vec<Effect> = Vec::new();
    assert(seen(effects@) =~= Seq::<EffectV>::empty());
    effects
}

fn advance(route: &mut Route, now: u64)
    requires
        old(route).sequence < u64::MAX,
        now <= LAST_INSTANT,
    ensures
        final(route)@ == advanced(old(route)@, now),
{
    route.sequence = route.sequence + 1;
    let patience: u64 = match route.phase {
        Phase::Finishing => FINISH_TIMEOUT,
        Phase::Ready | Phase::Chunk(_) | Phase::Cancelling => CHUNK_TIMEOUT,
        _ => ADMISSION_TIMEOUT,
    };
    route.deadline = now + patience;
}

fn same_option(text: &Option<String>, other: &str) -> (equal: bool)
    ensures
        equal == (text_view(*text) == Some(other@)),
{
    match text {
        Some(s) => same_text(s.as_str(), other),
        None => false,
    }
}

// ---------------------------------------------------------------------------
// Reading a source packet
// ---------------------------------------------------------------------------

fn member<'a>(data: &'a Json, name: &str, place: usize) -> (value: Option<&'a Json>)
    ensures
        match value {
            Some(v) => field(data@, name@, place as int) == Some(v@),
            None => field(data@, name@, place as int) is None,
        },
{
    match data {
        Json::Array(items) => {
            proof {
                crate::json::lemma_elements(items@);
            }
            if place < items.len() {
                Some(&items[place])
            } else {
                None
            }
        },
        _ => data.get(name),
    }
}

/// An optional member that is there.
fn present(value: Option<&Json>) -> (there: Option<&Json>)
    ensures
        match value {
            Some(v) => match there {
                Some(t) => optional(Some(v@)) == Some(t@),
                None => optional(Some(v@)) is None,
            },
            None => there is None,
        },
{
    match value {
        Some(v) => match v {
            Json::Null => None,
            _ => Some(v),
        },
        None => None,
    }
}

fn required_text(data: &Json, name: &str, place: usize) -> (text: Option<String>)
    ensures
        match text {
            Some(s) => field(data@, name@, place as int) == Some(Val::Text(s@)),
            None => !(field(data@, name@, place as int) matches Some(Val::Text(_))),
        },
{
    match member(data, name, place) {
        Some(v) => match v.as_text() {
            Some(s) => Some(s.to_owned()),
            None => None,
        },
        None => None,
    }
}

/// The text of an optional member, or nothing where it is of another kind.
fn optional_member_text(data: &Json, name: &str, place: usize) -> (text: Result<Option<String>, ()>)
    ensures
        match text {
            Ok(t) => {
                &&& optional(field(data@, name@, place as int)) matches Some(v) ==> v is Text
                &&& text_view(t) == optional_text(field(data@, name@, place as int))
            },
            Err(_) => !(optional(field(data@, name@, place as int)) matches Some(v) ==> v is Text),
        },
{
    match present(member(data, name, place)) {
        Some(v) => match v.as_text() {
            Some(s) => Ok(Some(s.to_owned())),
            None => Err(()),
        },
        None => Ok(None),
    }
}

/// Reads a source packet: an object without other members, or an array of the
/// members in their order.
fn read_packet(data: &Json) -> (packet: Option<SourcePacket>)
    ensures
        match packet {
            Some(p) => source_packet(data@) == Some(p@),
            None => source_packet(data@) is None,
        },
{
    let shaped: bool = match data {
        Json::Object(_) => {
            let keys: [&str; 9] = [
                "what",
                "why",
                "call_id",
                "operation_id",
                "attempt_id",
                "where",
                "intent",
                "offset",
                "data",
            ];
            proof {
                let k = keys@;
                assert(k[0]@ == "what"@ && k[1]@ == "why"@ && k[2]@ == "call_id"@ && k[3]@
                    == "operation_id"@ && k[4]@ == "attempt_id"@ && k[5]@ == "where"@ && k[6]@
                    == "intent"@ && k[7]@ == "offset"@ && k[8]@ == "data"@);
                assert(names(k) =~= packet_keys());
            }
            has_only(data, keys.as_slice())
        },
        Json::Array(items) => {
            proof {
                crate::json::lemma_elements(items@);
            }
            items.len() <= 9
        },
        _ => false,
    };
    if !shaped {
        return None;
    }
    let (what, why, call_id, operation_id, attempt_id) = match (
        required_text(data, "what", 0),
        required_text(data, "why", 1),
        required_text(data, "call_id", 2),
        required_text(data, "operation_id", 3),
        required_text(data, "attempt_id", 4),
    ) {
        (Some(a), Some(b), Some(c), Some(d), Some(e)) => (a, b, c, d, e),
        _ => return None,
    };
    let (place, body) = match (
        optional_member_text(data, "where", 5),
        optional_member_text(data, "data", 8),
    ) {
        (Ok(p), Ok(b)) => (p, b),
        _ => return None,
    };
    let offset: Option<u64> = match present(member(data, "offset", 7)) {
        Some(v) => match v.as_uint() {
            Some(n) => Some(n),
            None => return None,
        },
        None => None,
    };
    let intent: Option<Json> = match present(member(data, "intent", 6)) {
        Some(v) => Some(v.copy()),
        None => None,
    };
    Some(
        SourcePacket {
            what,
            why,
            call_id,
            operation_id,
            attempt_id,
            place,
            intent,
            offset,
            data: body,
        },
    )
}

/// The sizes of the texts of a packet.
pub fn measure(data: &Json) -> (sizes: Sizes)
    ensures
        sizes == sizes_of(data@),
{
    let packet: bool = written_within(data, MAX_PACKET_BYTES);
    let intent: bool = match read_packet(data) {
        Some(p) => match p.intent {
            Some(i) => written_within(&i, MAX_MANIFEST_BYTES),
            None => false,
        },
        None => false,
    };
    let requested: bool = match data.get("receipt") {
        Some(receipt) => match receipt.get("requested") {
            Some(r) => written_within(r, MAX_MANIFEST_BYTES),
            None => written_within(&Json::Null, MAX_MANIFEST_BYTES),
        },
        None => written_within(&Json::Null, MAX_MANIFEST_BYTES),
    };
    Sizes { packet, intent, requested }
}

// ---------------------------------------------------------------------------
// Ruling on a command
// ---------------------------------------------------------------------------

impl Route {
    /// The bytes that the manifest announces.
    fn announced(&self) -> (bytes: u64)
        ensures
            bytes == announced(self@),
    {
        match &self.intent {
            Some(v) => match v.uint_at("bytes") {
                Some(n) => n,
                None => 0,
            },
            None => 0,
        }
    }
}

fn rule_begin(route: &mut Route, packet: SourcePacket, elsewhere: u64, intent_fits: bool) -> (decision:
    Decision)
    requires
        elsewhere <= MOST_BYTES,
    ensures
        begin_ruling(old(route)@, packet@, elsewhere as nat, intent_fits) == (Ruling {
            route: final(route)@,
            outcome: decision@,
        }),
{
    route.result = None;
    let intent = match packet.intent {
        Some(v) => v,
        None => return Decision::Violate("begin needs a PNG manifest"),
    };
    if packet.offset.is_some() || packet.data.is_some() || !same_option(&packet.place, "localhost") {
        return Decision::Violate("invalid screenshot begin fields or writer location");
    }
    match judge_intent(&intent, intent_fits) {
        Ok(_) => {},
        Err(reason) => return Decision::End(reason),
    }
    let destined: bool = match &route.destination {
        Some(d) => intent.says("destination", d.as_str()),
        None => false,
    };
    if !destined {
        return Decision::End("destination differs from the dispatched save");
    }
    let rebinds: bool = match &route.intent {
        Some(earlier) => !earlier.same(&intent),
        None => false,
    };
    if rebinds {
        return Decision::End("operation already binds a different manifest");
    }
    let bytes: u64 = match intent.uint_at("bytes") {
        Some(n) => n,
        None => 0,
    };
    if elsewhere + bytes > MAX_TOTAL_BYTES {
        return Decision::End("screenshot aggregate byte limit reached");
    }
    if route.phase == Phase::Ready && same_text(packet.attempt_id.as_str(), route.attempt.as_str()) {
        return Decision::Violate("replacement requires a new attempt ID");
    }
    route.attempt = packet.attempt_id;
    let fields = Json::object().with("intent", intent.copy());
    route.intent = Some(intent);
    route.offset = 0;
    Decision::Forward(Phase::Opening, fields)
}

fn rule_status(route: &mut Route, packet: SourcePacket) -> (decision: Decision)
    ensures
        status_ruling(old(route)@, packet@) == (Ruling {
            route: final(route)@,
            outcome: decision@,
        }),
{
    if packet.intent.is_some() || packet.offset.is_some() || packet.data.is_some() || !same_option(
        &packet.place,
        "localhost",
    ) {
        return Decision::Violate("invalid status fields");
    }
    route.attempt = packet.attempt_id;
    route.result = None;
    Decision::Forward(Phase::Querying, Json::object())
}

/// A text stands for one number of bytes at most.
proof fn lemma_chunk_len(data: Seq<char>, n: int)
    requires
        stands_for(vstd::utf8::encode_utf8(data), n),
    ensures
        chunk_len(data) == n,
{
    let s = vstd::utf8::encode_utf8(data);
    let m = chunk_len(data);
    assert(stands_for(s, m));
    let a = choose|b: Seq<u8>| b.len() == n && #[trigger] crate::screenshot::base64::encoded(b) == s;
    let b = choose|b: Seq<u8>| b.len() == m && #[trigger] crate::screenshot::base64::encoded(b) == s;
    law_decoding_is_unique(a, b);
}

fn rule_chunk(route: &Route, packet: SourcePacket) -> (decision: Decision)
    requires
        sound_route(route@),
    ensures
        chunk_ruling(route@, packet@) == (Ruling { route: route@, outcome: decision@ }),
{
    if packet.intent.is_some() || packet.place.is_some() {
        return Decision::Violate("invalid chunk fields");
    }
    let data: String = match packet.data {
        Some(d) => d,
        None => return Decision::Violate("missing chunk data"),
    };
    let text: &str = data.as_str();
    assert(text.spec_bytes() == vstd::utf8::encode_utf8(data@));
    let length: u64 = match decoded_chunk_len(text) {
        Ok(n) => n,
        Err(_) => {
            return Decision::Violate("invalid or oversized base64 chunk");
        },
    };
    proof {
        lemma_chunk_len(data@, length as int);
        assert(announced(route@) <= MAX_PNG_BYTES);
    }
    let end: u64 = route.offset + length;
    let placed: bool = match packet.offset {
        Some(o) => o == route.offset,
        None => false,
    };
    if !placed || end > route.announced() {
        return Decision::Violate("chunk offset or manifest byte count differs");
    }
    Decision::Forward(
        Phase::Chunk(end),
        Json::object().with("offset", Json::Unsigned(route.offset)).with("data", Json::Text(data)),
    )
}

/// A packet without any of the optional fields.
fn bare(packet: &SourcePacket) -> (bare: bool)
    ensures
        bare == (packet@.intent is None && packet@.offset is None && packet@.data is None
            && packet@.place is None),
{
    packet.intent.is_none() && packet.offset.is_none() && packet.data.is_none()
        && packet.place.is_none()
}

/// What becomes of a command of the current attempt.
fn rule(route: &mut Route, packet: SourcePacket, elsewhere: u64, intent_fits: bool) -> (decision:
    Decision)
    requires
        sound_route(old(route)@),
        elsewhere <= MOST_BYTES,
    ensures
        ruling(old(route)@, packet@, elsewhere as nat, intent_fits) == (Ruling {
            route: final(route)@,
            outcome: decision@,
        }),
{
    let phase: Phase = route.phase;
    let why: &str = packet.why.as_str();
    if same_text(why, "begin") && (phase == Phase::AwaitingBegin || phase == Phase::Ready) {
        rule_begin(route, packet, elsewhere, intent_fits)
    } else if same_text(why, "status") && phase == Phase::AwaitingBegin {
        rule_status(route, packet)
    } else if same_text(why, "chunk") && phase == Phase::Ready {
        rule_chunk(route, packet)
    } else if same_text(why, "finish") && phase == Phase::Ready {
        if !bare(&packet) || route.offset != route.announced() {
            return Decision::Violate(
                "finish requires exactly the admitted bytes and no extra fields",
            );
        }
        route.finish_sent = true;
        Decision::Forward(Phase::Finishing, Json::object())
    } else if same_text(why, "cancel") && matches!(
        phase,
        Phase::Opening | Phase::Ready | Phase::Chunk(_) | Phase::Finishing
    ) {
        if !bare(&packet) {
            return Decision::Violate("invalid cancel fields");
        }
        Decision::Forward(Phase::Cancelling, Json::object())
    } else {
        Decision::Violate("screenshot command violates phase or one-chunk credit")
    }
}

// ---------------------------------------------------------------------------
// Answering a reply
// ---------------------------------------------------------------------------

/// What becomes of a reply, by its disposition: the result to relay, or why the
/// reply breaks the protocol.
fn answer(id: &str, route: &mut Route, data: &Json, why: &str, requested_fits: bool) -> (relayed:
    Result<Json, &'static str>)
    ensures
        answered(id@, old(route)@, data@, why@, requested_fits) == (Answered {
            route: final(route)@,
            answer: match relayed {
                Ok(result) => Answer::Relay(result@),
                Err(reason) => Answer::Refuse(reason@),
            },
        }),
{
    let phase: Phase = route.phase;
    let next: Option<u64> = data.uint_at("next_offset");
    let opened: bool = match next {
        Some(n) => n == 0,
        None => false,
    };
    if same_text(why, "ready") && phase == Phase::Opening && opened {
        let result = result_packet(id, route, why, None);
        route.phase = Phase::Ready;
        Ok(result.with("next_offset", Json::Unsigned(0)))
    } else if same_text(why, "ack") {
        match phase {
            Phase::Chunk(end) => {
                let acknowledged: bool = match next {
                    Some(n) => n == end,
                    None => false,
                };
                if !acknowledged {
                    return Err("ack offset differs from forwarded chunk");
                }
                let result = result_packet(id, route, why, None);
                route.offset = end;
                route.phase = Phase::Ready;
                Ok(result.with("next_offset", Json::Unsigned(end)))
            },
            _ => Err("ack has no outstanding chunk"),
        }
    } else if (same_text(why, "unknown") || same_text(why, "receiving")) && phase
        == Phase::Querying {
        let result = result_packet(id, route, why, None);
        route.phase = Phase::AwaitingBegin;
        if same_text(why, "receiving") {
            match next {
                Some(n) => {
                    if n <= MAX_PNG_BYTES {
                        Ok(result.with("next_offset", Json::Unsigned(n)))
                    } else {
                        Err("invalid receiving offset")
                    }
                },
                None => Err("invalid receiving offset"),
            }
        } else {
            Ok(result)
        }
    } else if same_text(why, "stored") || same_text(why, "published") || same_text(why, "failed")
        || same_text(why, "aborted") {
        answer_terminal(id, route, data, why, requested_fits)
    } else if same_text(why, "rejected") || same_text(why, "unresolved") {
        let disposition: &str = if route.finish_sent {
            "unresolved"
        } else {
            why
        };
        let reason: &str = if same_text(why, "rejected") {
            "Wicket refused the screenshot command"
        } else {
            "Wicket could not establish a terminal outcome; reconcile by operation ID"
        };
        let result = result_packet(id, route, disposition, None).with("reason", Json::text(reason));
        route.phase = Phase::Done;
        Ok(result)
    } else {
        Err("writer reply violates screenshot phase")
    }
}

fn answer_terminal(
    id: &str,
    route: &mut Route,
    data: &Json,
    why: &str,
    requested_fits: bool,
) -> (relayed: Result<Json, &'static str>)
    ensures
        terminal_answer(id@, old(route)@, data@, why@, requested_fits) == (Answered {
            route: final(route)@,
            answer: match relayed {
                Ok(result) => Answer::Relay(result@),
                Err(reason) => Answer::Refuse(reason@),
            },
        }),
{
    let live: bool = matches!(
        route.phase,
        Phase::Opening | Phase::Querying | Phase::Finishing | Phase::Cancelling | Phase::Chunk(_)
    );
    let receipt: Json = match data.get("receipt") {
        Some(r) => r.copy(),
        None => Json::Null,
    };
    let destination: Option<&str> = match &route.destination {
        Some(d) => Some(d.as_str()),
        None => None,
    };
    if !live || !judge_receipt(
        &receipt,
        why,
        route.slug.as_str(),
        route.operation.as_str(),
        route.intent.as_ref(),
        destination,
        requested_fits,
    ) {
        return Err("writer terminal receipt does not match the operation");
    }
    let result = result_packet(id, route, why, None).with("receipt", receipt);
    route.phase = Phase::Done;
    Ok(result)
}

/// Why a reply is refused before its disposition is looked at, or its
/// disposition.
fn disposition<'a>(id: &str, route: &Route, data: &'a Json) -> (why: Result<&'a str, &'static str>)
    ensures
        match why {
            Ok(w) => reply_error(id@, route@, data@) is None && data@.text_at("why"@) == Some(w@),
            Err(reason) => reply_error(id@, route@, data@) == Some(reason@),
        },
{
    let bound: bool = match data.get("binding") {
        Some(b) => b.same(&binding(id, route)),
        None => Json::Null.same(&binding(id, route)),
    };
    if !data.says("what", "screenshot_save") || !bound {
        return Err("reply attempt binding differs");
    }
    let current: bool = match data.uint_at("sequence") {
        Some(n) => n == route.sequence,
        None => false,
    };
    if !current || route.phase == Phase::Done {
        return Err("writer reply has no outstanding command");
    }
    let keys: [&str; 7] = [
        "what",
        "why",
        "binding",
        "sequence",
        "next_offset",
        "receipt",
        "reason",
    ];
    proof {
        let k = keys@;
        assert(k[0]@ == "what"@ && k[1]@ == "why"@ && k[2]@ == "binding"@ && k[3]@ == "sequence"@
            && k[4]@ == "next_offset"@ && k[5]@ == "receipt"@ && k[6]@ == "reason"@);
        assert(names(k) =~= reply_keys());
    }
    if !has_only(data, keys.as_slice()) {
        return Err("writer reply has unexpected fields");
    }
    match data.text_at("why") {
        Some(w) => Ok(w),
        None => Err("writer reply lacks disposition"),
    }
}

// ---------------------------------------------------------------------------
// The end of a route
// ---------------------------------------------------------------------------

/// The effects of the end of a route.
fn close_route(entry: Entry, reason: &str, relay: bool) -> (effects: Vec<Effect>)
    requires
        entry.route.sequence < u64::MAX,
    ensures
        seen(effects@) == ending(entry@, reason@, relay),
{
    let id: &str = entry.id.as_str();
    let mut route = entry.route;
    let ghost start = route@;
    let result: Json = match &route.result {
        Some(r) => r.copy(),
        None => {
            let why: &str = if route.finish_sent || route.phase == Phase::Querying {
                "unresolved"
            } else {
                "rejected"
            };
            result_packet(id, &route, why, Some(reason))
        },
    };
    let mut effects: Vec<Effect> = Vec::new();
    match route.writer {
        Some(writer) => {
            if route.result.is_none() && !route.attempt.as_str().is_empty() && route.phase
                != Phase::Querying && route.phase != Phase::AwaitingBegin {
                route.sequence = route.sequence + 1;
                effects.push(
                    Effect::Send {
                        socket: writer,
                        packet: command(id, &route, "cancel", Json::object()),
                    },
                );
            }
        },
        None => {},
    }
    let ghost cancelled = seen(effects@);
    let disposition: Json = match result.get("why") {
        Some(v) => v.copy(),
        None => Json::Null,
    };
    let context = Json::object().with("call_id", Json::text(id)).with(
        "operation_id",
        Json::text(route.operation.as_str()),
    ).with("source_socket", Json::Unsigned(route.source)).with(
        "writer_socket",
        socket_json(route.writer),
    ).with("disposition", disposition);
    effects.push(
        Effect::Observe(
            rejection_json(reason).with("how", Json::text("websocket")).with("with", context),
        ),
    );
    if relay {
        effects.push(Effect::Send { socket: route.source, packet: result.copy() });
    }
    effects.push(Effect::Complete { call_id: entry.id, packet: result });
    assert(seen(effects@) =~= ending(entry@, reason@, relay));
    effects
}

// ---------------------------------------------------------------------------
// The router
// ---------------------------------------------------------------------------

/// The models of some entries.
spec fn calls_of(entries: Seq<Entry>) -> Seq<CallV> {
    entries.map_values(|e: Entry| e@)
}

/// The place of a call in distinct calls.
proof fn lemma_index(calls: Seq<CallV>, id: Seq<char>, i: int)
    requires
        distinct(calls),
        0 <= i < calls.len(),
        calls[i].id == id,
    ensures
        routed(calls, id),
        index(calls, id) == i,
{
}

fn append(effects: &mut Vec<Effect>, more: Vec<Effect>)
    ensures
        seen(final(effects)@) == seen(old(effects)@) + seen(more@),
{
    let ghost before = effects@;
    let mut rest = more;
    effects.append(&mut rest);
    assert(seen(effects@) =~= seen(before) + seen(more@));
}

impl Router {
    /// The routed calls, in the order of their dispatch.
    pub closed spec fn view(&self) -> Seq<CallV> {
        calls_of(self.calls@)
    }

    /// A router without routes.
    pub fn new() -> (router: Router)
        ensures
            router@ == Seq::<CallV>::empty(),
            sound(router@),
    {
        let router = Router { calls: Vec::new() };
        assert(router@ =~= Seq::<CallV>::empty());
        router
    }

    fn find(&self, id: &str) -> (place: Option<usize>)
        requires
            distinct(self@),
        ensures
            match place {
                Some(i) => i < self.calls@.len() && routed(self@, id@) && index(self@, id@) == i
                    && self@[i as int] == self.calls@[i as int]@ && self@[i as int].id == id@,
                None => !routed(self@, id@),
            },
    {
        let mut i: usize = 0;
        while i < self.calls.len()
            invariant
                i <= self.calls@.len(),
                distinct(self@),
                forall|j: int| 0 <= j < i ==> #[trigger] self@[j].id != id@,
            decreases self.calls@.len() - i,
        {
            if same_text(self.calls[i].id.as_str(), id) {
                proof {
                    lemma_index(self@, id@, i as int);
                }
                return Some(i);
            }
            assert(self@[i as int].id == self.calls@[i as int].id@);
            i += 1;
        }
        None
    }

    /// Routes a call that is being dispatched. The caller has to know the
    /// operation before the capture, so that a lost response can be asked for.
    pub fn register(&mut self, call_id: &str, source: u64, slug: &str, args: &Json, now: u64) -> (result:
        Result<(), &'static str>)
        requires
            sound(old(self)@),
            now <= LAST_INSTANT,
        ensures
            match result {
                Ok(_) => {
                    &&& register_error(old(self)@, call_id@, slug@, args@) is None
                    &&& final(self)@ == registered(
                        old(self)@,
                        call_id@,
                        source,
                        slug@,
                        args@,
                        now,
                    )
                },
                Err(reason) => {
                    &&& register_error(old(self)@, call_id@, slug@, args@) == Some(reason@)
                    &&& final(self)@ == old(self)@
                },
            },
            sound(final(self)@),
            generation(final(self)@) <= generation(old(self)@),
    {
        if !args.says("who", "shotgun") || !args.says("f", "screenshot_save") {
            return Err("not a Shotgun screenshot_save call");
        }
        let inner: Json = match args.get("args") {
            Some(v) => v.copy(),
            None => Json::Null,
        };
        let operation: &str = match inner.text_at("operation_id") {
            Some(s) => s,
            None => return Err("screenshot_save requires a caller-known operation_id"),
        };
        if !valid_id(call_id) || !valid_id(slug) || !valid_id(operation) {
            return Err("invalid screenshot operation identity");
        }
        if self.calls.len() >= MAX_CALLS {
            return Err("screenshot route capacity reached");
        }
        let destination: Option<String> = match inner.text_at("destination") {
            Some(d) => Some(d.to_owned()),
            None => None,
        };
        let fresh = Entry {
            id: call_id.to_owned(),
            route: Route {
                source,
                writer: None,
                slug: slug.to_owned(),
                operation: operation.to_owned(),
                destination,
                attempt: String::new(),
                intent: None,
                phase: Phase::AwaitingBegin,
                offset: 0,
                finish_sent: false,
                sequence: 0,
                deadline: now + ADMISSION_TIMEOUT,
                result: None,
            },
        };
        assert(fresh.route@ == fresh_route(source, slug@, args@, now));
        match self.find(call_id) {
            Some(i) => {
                self.calls.set(i, fresh);
                assert(self@ =~= registered(old(self)@, call_id@, source, slug@, args@, now));
            },
            None => {
                self.calls.push(fresh);
                assert(self@ =~= registered(old(self)@, call_id@, source, slug@, args@, now));
            },
        }
        proof {
            law_registering_keeps_routes_sound(old(self)@, call_id@, source, slug@, args@, now);
        }
        Ok(())
    }

    /// Whether a call is routed.
    pub fn contains(&self, call_id: &str) -> (is: bool)
        requires
            sound(self@),
        ensures
            is == routed(self@, call_id@),
    {
        self.find(call_id).is_some()
    }

    /// Forgets a call.
    pub fn remove(&mut self, call_id: &str)
        requires
            sound(old(self)@),
        ensures
            final(self)@ == removed(old(self)@, call_id@),
            sound(final(self)@),
            generation(final(self)@) <= generation(old(self)@),
    {
        proof {
            law_ending_keeps_routes_sound(self@, call_id@, ""@, false);
        }
        match self.find(call_id) {
            Some(i) => {
                self.calls.remove(i);
                assert(self@ =~= removed(old(self)@, call_id@));
            },
            None => {},
        }
    }

    /// Ends a route, with the outcome that is known of it.
    pub fn end(&mut self, call_id: &str, reason: &str, relay: bool) -> (effects: Vec<Effect>)
        requires
            sound(old(self)@),
            generation(old(self)@) < u64::MAX,
        ensures
            end_step(old(self)@, call_id@, reason@, relay) == (Step {
                calls: final(self)@,
                effects: seen(effects@),
            }),
            sound(final(self)@),
            generation(final(self)@) <= generation(old(self)@),
    {
        proof {
            law_ending_keeps_routes_sound(self@, call_id@, reason@, relay);
        }
        match self.find(call_id) {
            Some(i) => {
                proof {
                    lemma_generation(self@, i as int);
                }
                let entry = self.calls.remove(i);
                assert(self@ =~= old(self)@.remove(i as int));
                close_route(entry, reason, relay)
            },
            None => nothing(),
        }
    }

    /// A reply of the writer.
    fn writer_reply(&mut self, socket: u64, data: &Json, requested_fits: bool, now: u64) -> (effects:
        Vec<Effect>)
        requires
            sound(old(self)@),
            generation(old(self)@) < u64::MAX,
            now <= LAST_INSTANT,
        ensures
            writer_step(old(self)@, socket, data@, requested_fits, now) == (Step {
                calls: final(self)@,
                effects: seen(effects@),
            }),
    {
        let attempt: Option<&Json> = match data.get("binding") {
            Some(b) => b.get("attempt"),
            None => None,
        };
        let named: Option<&str> = match attempt {
            Some(a) => a.text_at("call_id"),
            None => None,
        };
        let id: &str = match named {
            Some(s) => s,
            None => return violate(socket, "writer reply lacks call binding"),
        };
        let i: usize = match self.find(id) {
            Some(i) => i,
            None => return nothing(),
        };
        proof {
            lemma_generation(self@, i as int);
        }
        let selected: bool = match self.calls[i].route.writer {
            Some(w) => w == socket,
            None => false,
        };
        if !selected {
            return violate(socket, "reply is not from the selected writer");
        }
        let sequence: u64 = match data.uint_at("sequence") {
            Some(n) => n,
            None => return violate(socket, "writer reply lacks sequence"),
        };
        if sequence < self.calls[i].route.sequence {
            return nothing();
        }
        let why: &str = match disposition(id, &self.calls[i].route, data) {
            Ok(w) => w,
            Err(reason) => return violate(socket, reason),
        };
        let ghost before = self.calls@[i as int]@;
        let mut entry = self.calls.remove(i);
        let relayed = answer(id, &mut entry.route, data, why, requested_fits);
        match relayed {
            Err(reason) => {
                self.calls.insert(i, entry);
                assert(self@ =~= rerouted(old(self)@, id@, entry.route@));
                violate(socket, reason)
            },
            Ok(result) => {
                if entry.route.phase == Phase::Done || same_text(why, "unknown") || same_text(
                    why,
                    "receiving",
                ) {
                    entry.route.result = Some(result.copy());
                }
                advance(&mut entry.route, now);
                let source: u64 = entry.route.source;
                self.calls.insert(i, entry);
                let mut effects: Vec<Effect> = Vec::new();
                effects.push(Effect::Send { socket: source, packet: result });
                assert(self@ =~= rerouted(old(self)@, id@, entry.route@));
                assert(seen(effects@) =~= seq![
                    EffectV::Send { socket: source, packet: result@ },
                ]);
                effects
            },
        }
    }

    /// The first objection of the live attempts at the same operation.
    fn object(&self, me: usize, packet: &SourcePacket) -> (reason: Option<&'static str>)
        requires
            distinct(self@),
            me < self.calls@.len(),
        ensures
            match reason {
                Some(r) => first_objection(self@, self@[me as int], packet@) == Some(r@),
                None => first_objection(self@, self@[me as int], packet@) is None,
            },
    {
        let mut j: usize = 0;
        while j < self.calls.len()
            invariant
                j <= self.calls@.len(),
                me < self.calls@.len(),
                distinct(self@),
                first_objection(self@.take(j as int), self@[me as int], packet@) is None,
            decreases self.calls@.len() - j,
        {
            let ghost mine = self@[me as int];
            assert(self@.take(j + 1).drop_last() =~= self@.take(j as int));
            assert(self@.take(j + 1).last() == self.calls@[j as int]@);
            assert(mine == self.calls@[me as int]@);
            let other: &Route = &self.calls[j].route;
            if self.is_rival(j, me) {
                let reason: Option<&'static str> = if other.finish_sent || other.phase
                    == Phase::Querying || other.phase == Phase::Cancelling {
                    Some("operation has an outstanding finish/status/cancel; query status")
                } else {
                    let differs: bool = match &other.intent {
                        Some(i) => match &packet.intent {
                            Some(k) => !i.same(k),
                            None => true,
                        },
                        None => false,
                    };
                    if differs || same_text(other.attempt.as_str(), packet.attempt_id.as_str()) {
                        Some("replacement conflicts with the live intent or needs a new attempt ID")
                    } else {
                        None
                    }
                };
                if reason.is_some() {
                    proof {
                        lemma_objection_stays(self@, mine, packet@, j + 1);
                    }
                    return reason;
                }
            }
            j += 1;
        }
        assert(self@.take(j as int) =~= self@);
        None
    }

    /// Whether a call is a live attempt at the same operation as another.
    fn is_rival(&self, j: usize, me: usize) -> (is: bool)
        requires
            distinct(self@),
            j < self.calls@.len(),
            me < self.calls@.len(),
        ensures
            is == rival(self@[j as int], self@[me as int]),
    {
        assert(self@[j as int] == self.calls@[j as int]@);
        assert(self@[me as int] == self.calls@[me as int]@);
        let (other, mine) = (&self.calls[j], &self.calls[me]);
        !same_text(other.id.as_str(), mine.id.as_str()) && same_text(
            other.route.slug.as_str(),
            mine.route.slug.as_str(),
        ) && same_text(other.route.operation.as_str(), mine.route.operation.as_str())
            && other.route.phase != Phase::Done
    }

    /// The bytes that are admitted for other operations.
    fn elsewhere(&self, me: usize) -> (bytes: u64)
        requires
            sound(self@),
            me < self.calls@.len(),
        ensures
            bytes == admitted(bystanders(self@, self@[me as int])),
            bytes <= MOST_BYTES,
    {
        let ghost mine = self@[me as int];
        assert(MAX_PNG_BYTES == 0x200_0000);
        let mut bytes: u64 = 0;
        let mut j: usize = 0;
        assert(bystanders(self@.take(0), mine) =~= Seq::<CallV>::empty()) by {
            reveal(Seq::filter);
        }
        while j < self.calls.len()
            invariant
                j <= self.calls@.len(),
                self.calls@.len() <= MAX_CALLS,
                me < self.calls@.len(),
                sound(self@),
                mine == self@[me as int],
                bytes <= j * 0x200_0000,
                bytes == admitted(bystanders(self@.take(j as int), mine)),
            decreases self.calls@.len() - j,
        {
            let ghost c = self@[j as int];
            proof {
                assert(c == self.calls@[j as int]@);
                assert(sound_route(c.route));
                assert(announced(c.route) <= 0x200_0000);
                reveal(Seq::filter);
                assert(self@.take(j + 1).drop_last() =~= self@.take(j as int));
                assert(self@.take(j + 1).last() == c);
                let sofar = bystanders(self@.take(j as int), mine);
                assert(sofar.push(c).drop_last() =~= sofar);
            }
            let own: bool = same_text(self.calls[j].id.as_str(), self.calls[me].id.as_str());
            assert(own == (c.id == mine.id)) by {
                assert(mine == self.calls@[me as int]@);
            }
            if !own && !self.is_rival(j, me) && self.calls[j].route.phase != Phase::Done {
                bytes = bytes + self.calls[j].route.announced();
            }
            j += 1;
        }
        assert(self@.take(j as int) =~= self@);
        bytes
    }

    /// Sends a command to the writer.
    fn forward(
        &mut self,
        me: usize,
        before: Ghost<CallV>,
        why: &str,
        phase: Phase,
        fields: Json,
        writer: u64,
        now: u64,
    ) -> (effects: Vec<Effect>)
        requires
            distinct(old(self)@),
            me < old(self)@.len(),
            before@.id == old(self)@[me as int].id,
            before@.route.slug == old(self)@[me as int].route.slug,
            before@.route.operation == old(self)@[me as int].route.operation,
            before@.route.sequence == old(self)@[me as int].route.sequence,
            generation(old(self)@.update(me as int, before@)) < u64::MAX,
            now <= LAST_INSTANT,
        ensures
            forward_step(
                old(self)@.update(me as int, before@),
                before@,
                old(self)@[me as int].route,
                why@,
                phase,
                fields@,
                writer,
                now,
            ) == (Step { calls: final(self)@, effects: seen(effects@) }),
    {
        let ghost start = old(self)@;
        let ghost whole = start.update(me as int, before@);
        let ghost ruled = start[me as int].route;
        let ghost moved = advanced(RouteV { writer: Some(writer), phase, ..ruled }, now);
        let ghost step = forward_step(whole, before@, ruled, why@, phase, fields@, writer, now);
        assert(start[me as int] == self.calls@[me as int]@);
        let fresh: bool = same_text(why, "begin");
        proof {
            lemma_generation(whole, me as int);
        }
        let mut entry = self.calls.remove(me);
        entry.route.writer = Some(writer);
        entry.route.phase = phase;
        advance(&mut entry.route, now);
        assert(entry.route@ == moved);
        let packet = command(entry.id.as_str(), &entry.route, why, fields);
        self.calls.insert(me, entry);
        let ghost mine = CallV { id: before@.id, route: moved };
        assert(self@ =~= whole.update(me as int, mine));
        let mut effects: Vec<Effect> = nothing();
        if fresh {
            let mut j: usize = 0;
            while j < self.calls.len()
                invariant
                    j <= self.calls@.len(),
                    me < self.calls@.len(),
                    whole.len() == self.calls@.len(),
                    distinct(whole),
                    generation(whole) < u64::MAX,
                    now <= LAST_INSTANT,
                    whole[me as int] == before@,
                    mine.id == before@.id,
                    mine.route.slug == before@.route.slug,
                    mine.route.operation == before@.route.operation,
                    seen(effects@) == replacements(whole.take(j as int), before@),
                    forall|k: int|
                        0 <= k < whole.len() ==> #[trigger] self@[k] == if k == me {
                            mine
                        } else if k < j && rival(whole[k], before@) {
                            replaced(whole[k], now)
                        } else {
                            whole[k]
                        },
                decreases self.calls@.len() - j,
            {
                let ghost c = whole[j as int];
                proof {
                    assert(whole.take(j + 1).drop_last() =~= whole.take(j as int));
                    assert(whole.take(j + 1).last() == c);
                    assert(self@[j as int] == self.calls@[j as int]@);
                    assert(self@[me as int] == self.calls@[me as int]@);
                    lemma_generation(whole, j as int);
                    lemma_ids_are_kept(whole, self@);
                }
                let ghost loop_start = self@;
                if j != me && self.is_rival(j, me) {
                    assert(rival(c, before@));
                    let mut old = self.calls.remove(j);
                    assert(old@ == c);
                    let result = result_packet(
                        old.id.as_str(),
                        &old.route,
                        "rejected",
                        Some("temporary receive superseded by a fresh retry"),
                    );
                    old.route.result = Some(result.copy());
                    old.route.phase = Phase::Done;
                    advance(&mut old.route, now);
                    assert(old@ == replaced(c, now));
                    let context = Json::object().with("call_id", Json::text(old.id.as_str()));
                    let source: u64 = old.route.source;
                    let ghost already = effects@;
                    effects.push(Effect::Send { socket: source, packet: result.copy() });
                    effects.push(Effect::Complete { call_id: old.id.clone(), packet: result });
                    self.calls.insert(j, old);
                    assert(self@ =~= loop_start.update(j as int, replaced(c, now)));
                    assert(self@[me as int] == self.calls@[me as int]@);
                    let fact = rejection_json("temporary receive superseded by retry").with(
                        "with",
                        context.with(
                            "replacement_call_id",
                            Json::text(self.calls[me].id.as_str()),
                        ),
                    );
                    effects.push(Effect::Observe(fact));
                    assert(seen(effects@) =~= seen(already) + replacement(c, before@.id));
                } else {
                    assert(!rival(c, before@)) by {
                        if j == me {
                            assert(c.id == before@.id);
                        }
                    }
                }
                j += 1;
            }
            assert(whole.take(j as int) =~= whole);
        } else {
            assert(forall|k: int| 0 <= k < whole.len() && k != me ==> self@[k] == whole[k]);
        }
        let ghost already = effects@;
        effects.push(Effect::Send { socket: writer, packet });
        proof {
            assert(seen(effects@) =~= seen(already).push(
                EffectV::Send { socket: writer, packet: packet@ },
            ));
            assert(seen(effects@) =~= step.effects);
            assert forall|k: int| 0 <= k < whole.len() implies #[trigger] self@[k] == step.calls[k] by {
                if k != me {
                    assert(whole[k].id != whole[me as int].id);
                }
            }
            assert(self@ =~= step.calls);
        }
        effects
    }

    /// A packet from the source of a picture.
    fn source_packet(
        &mut self,
        socket: u64,
        packet: SourcePacket,
        intent_fits: bool,
        writers: &[u64],
        now: u64,
    ) -> (effects: Vec<Effect>)
        requires
            sound(old(self)@),
            generation(old(self)@) < u64::MAX,
            now <= LAST_INSTANT,
        ensures
            source_step(old(self)@, socket, packet@, intent_fits, writers@, now) == (Step {
                calls: final(self)@,
                effects: seen(effects@),
            }),
    {
        let ghost start = self@;
        let me: usize = match self.find(packet.call_id.as_str()) {
            Some(i) => i,
            None => return nothing(),
        };
        let ghost mine = self@[me as int];
        let ghost id = packet@.call_id;
        let route: &Route = &self.calls[me].route;
        if route.source != socket || !same_text(
            route.operation.as_str(),
            packet.operation_id.as_str(),
        ) || !valid_id(packet.attempt_id.as_str()) || !same_text(
            packet.what.as_str(),
            "screenshot_save",
        ) {
            return violate(socket, "screenshot source/call/operation binding differs");
        }
        let why: String = packet.why.clone();
        let fresh: bool = same_text(why.as_str(), "begin");
        if fresh {
            match self.object(me, &packet) {
                Some(reason) => {
                    let mut entry = self.calls.remove(me);
                    if entry.route.phase == Phase::AwaitingBegin || entry.route.phase
                        == Phase::Ready {
                        entry.route.result = None;
                    }
                    let ghost cleared = entry.route@;
                    self.calls.insert(me, entry);
                    proof {
                        assert(cleared == begun(mine.route));
                        self.lemma_rerouted(start, me as int, cleared);
                    }
                    return self.conclude(me, reason);
                },
                None => {},
            }
        }
        let route: &Route = &self.calls[me].route;
        if route.phase == Phase::Done || (!fresh && !same_text(why.as_str(), "status")
            && !same_text(packet.attempt_id.as_str(), route.attempt.as_str())) {
            return nothing();
        }
        let elsewhere: u64 = self.elsewhere(me);
        let mut entry = self.calls.remove(me);
        let decision = rule(&mut entry.route, packet, elsewhere, intent_fits);
        let ghost ruled = entry.route@;
        let chosen: Option<u64> = entry.route.writer;
        self.calls.insert(me, entry);
        proof {
            self.lemma_rerouted(start, me as int, ruled);
            assert(start.update(me as int, mine) =~= start);
            assert(self@.update(me as int, mine) =~= start);
        }
        match decision {
            Decision::Violate(reason) => violate(socket, reason),
            Decision::End(reason) => self.conclude(me, reason),
            Decision::Forward(phase, fields) => {
                let writer: u64 = match chosen {
                    Some(w) => w,
                    None => {
                        if writers.len() != 1 {
                            return self.conclude(
                                me,
                                "screenshot requires exactly one connected local Wicket",
                            );
                        }
                        writers[0]
                    },
                };
                self.forward(me, Ghost(mine), why.as_str(), phase, fields, writer, now)
            },
        }
    }

    /// A route at a place was changed, within its generation.
    proof fn lemma_rerouted(&self, start: Seq<CallV>, me: int, next: RouteV)
        requires
            distinct(start),
            0 <= me < start.len(),
            next.sequence == start[me].route.sequence,
            self@ =~= start.update(me, CallV { id: start[me].id, route: next }),
        ensures
            self@ == rerouted(start, start[me].id, next),
            distinct(self@),
            index(self@, start[me].id) == me,
            routed(self@, start[me].id),
            generation(self@) <= generation(start),
    {
        let id = start[me].id;
        lemma_index(start, id, me);
        lemma_ids_are_kept(start, self@);
        lemma_index(self@, id, me);
        assert forall|i: int| 0 <= i < self@.len() implies (
        #[trigger] self@[i].route).sequence <= generation(start) by {
            lemma_generation(start, i);
        }
        lemma_generation_within(self@, generation(start));
    }

    /// Ends the route at a place.
    fn conclude(&mut self, i: usize, reason: &str) -> (effects: Vec<Effect>)
        requires
            distinct(old(self)@),
            i < old(self)@.len(),
            generation(old(self)@) < u64::MAX,
        ensures
            end_step(old(self)@, old(self)@[i as int].id, reason@, true) == (Step {
                calls: final(self)@,
                effects: seen(effects@),
            }),
    {
        proof {
            lemma_generation(self@, i as int);
            lemma_index(self@, self@[i as int].id, i as int);
            assert(self@[i as int] == self.calls@[i as int]@);
        }
        let entry = self.calls.remove(i);
        assert(self@ =~= old(self)@.remove(i as int));
        close_route(entry, reason, true)
    }

    /// A packet from a socket, where `sizes` says what is known of the sizes of
    /// its texts.
    pub fn sized_packet(
        &mut self,
        socket: u64,
        data: &Json,
        sizes: Sizes,
        local_writers: &[u64],
        now: u64,
    ) -> (effects: Vec<Effect>)
        requires
            sound(old(self)@),
            generation(old(self)@) < u64::MAX,
            now <= LAST_INSTANT,
        ensures
            packet_step(old(self)@, socket, data@, sizes, local_writers@, now) == (Step {
                calls: final(self)@,
                effects: seen(effects@),
            }),
            sound(final(self)@),
            generation(final(self)@) <= generation(old(self)@) + 1,
    {
        proof {
            law_packets_keep_routes_sound(self@, socket, data@, sizes, local_writers@, now);
        }
        if !sizes.packet {
            return violate(socket, "screenshot packet exceeds limit");
        }
        if data.get("binding").is_some() {
            return self.writer_reply(socket, data, sizes.requested, now);
        }
        match read_packet(data) {
            Some(packet) => self.source_packet(socket, packet, sizes.intent, local_writers, now),
            None => violate(socket, "invalid screenshot source packet"),
        }
    }

    /// A packet from a socket.
    pub fn packet(&mut self, socket: u64, data: &Json, local_writers: &[u64], now: u64) -> (effects:
        Vec<Effect>)
        requires
            sound(old(self)@),
            generation(old(self)@) < u64::MAX,
            now <= LAST_INSTANT,
        ensures
            packet_step(old(self)@, socket, data@, sizes_of(data@), local_writers@, now) == (Step {
                calls: final(self)@,
                effects: seen(effects@),
            }),
            sound(final(self)@),
            generation(final(self)@) <= generation(old(self)@) + 1,
    {
        let sizes = measure(data);
        self.sized_packet(socket, data, sizes, local_writers, now)
    }

    /// The result of a call, given the value that the response of the tool holds.
    pub fn checked_result(&self, call_id: &str, output: Option<&Json>) -> (result: Result<
        Json,
        &'static str,
    >)
        requires
            sound(self@),
        ensures
            ({
                let held = match output {
                    Some(v) => Some(v@),
                    None => None,
                };
                match result {
                    Ok(packet) => tool_error(self@, call_id@, held) is None && route(
                        self@,
                        call_id@,
                    ).result == Some(packet@),
                    Err(reason) => tool_error(self@, call_id@, held) == Some(reason@),
                }
            }),
    {
        let i: usize = match self.find(call_id) {
            Some(i) => i,
            None => return Err("unknown screenshot call"),
        };
        let expected: &Json = match &self.calls[i].route.result {
            Some(r) => r,
            None => return Err("no writer outcome has been received"),
        };
        let matching: bool = match output {
            Some(v) => v.same(expected),
            None => false,
        };
        if !matching {
            return Err("tool response differs from the writer outcome");
        }
        Ok(expected.copy())
    }

    /// The result of a call: the response of the tool has to be exactly the
    /// packet that was relayed to it. Its raw output is never passed on.
    pub fn tool_result(&self, call_id: &str, output: &str) -> (result: Result<Json, &'static str>)
        requires
            sound(self@),
        ensures
            match result {
                Ok(packet) => tool_error(self@, call_id@, held_output(output@)) is None && route(
                    self@,
                    call_id@,
                ).result == Some(packet@),
                Err(reason) => tool_error(self@, call_id@, held_output(output@)) == Some(reason@),
            },
    {
        if bytes_in(output) > MAX_PACKET_BYTES {
            return self.checked_result(call_id, None);
        }
        match read(output) {
            Some(v) => self.checked_result(call_id, Some(&v)),
            None => self.checked_result(call_id, None),
        }
    }

    /// A socket is gone.
    pub fn disconnected(&mut self, socket: u64) -> (effects: Vec<Effect>)
        requires
            sound(old(self)@),
            generation(old(self)@) < u64::MAX,
        ensures
            disconnect_step(old(self)@, socket) == (Step {
                calls: final(self)@,
                effects: seen(effects@),
            }),
            sound(final(self)@),
            generation(final(self)@) <= generation(old(self)@),
    {
        proof {
            law_disconnecting_keeps_routes_sound(self@, socket);
        }
        let ghost start = self@;
        let ghost gone = |c: CallV| uses(c, socket);
        let ghost stays = |c: CallV| !uses(c, socket);
        let ghost mut k: int = 0;
        let mut effects: Vec<Effect> = nothing();
        let mut i: usize = 0;
        proof {
            reveal(Seq::filter);
            assert(start.take(0).filter(gone) =~= Seq::<CallV>::empty());
            assert(start.take(0).filter(stays) =~= Seq::<CallV>::empty());
            assert(start.skip(0) =~= start);
        }
        while i < self.calls.len()
            invariant
                0 <= k <= start.len(),
                sound(start),
                generation(start) < u64::MAX,
                gone == |c: CallV| uses(c, socket),
                stays == |c: CallV| !uses(c, socket),
                i == start.take(k).filter(stays).len(),
                self@ == start.take(k).filter(stays) + start.skip(k),
                seen(effects@) == endings(
                    start.take(k).filter(gone),
                    "screenshot route endpoint disconnected"@,
                ),
            decreases start.len() - k,
        {
            let ghost c = start[k];
            proof {
                assert(self@[i as int] == c);
                assert(self.calls@[i as int]@ == c);
                lemma_filter_step(start, gone, k);
                lemma_filter_step(start, stays, k);
                lemma_generation(start, k);
            }
            let route: &Route = &self.calls[i].route;
            let hangs: bool = route.source == socket || match route.writer {
                Some(w) => w == socket,
                None => false,
            };
            let ghost kept = start.take(k).filter(stays);
            if hangs {
                let ghost prior = self@;
                let entry = self.calls.remove(i);
                assert(self@ =~= prior.remove(i as int));
                append(
                    &mut effects,
                    close_route(entry, "screenshot route endpoint disconnected", true),
                );
                proof {
                    let done = start.take(k).filter(gone);
                    assert(done.push(c).drop_last() =~= done);
                    assert(self@ =~= kept + start.skip(k + 1));
                }
            } else {
                assert(self@ =~= kept.push(c) + start.skip(k + 1));
                i += 1;
            }
            proof {
                k = k + 1;
            }
        }
        proof {
            assert(k == start.len());
            assert(start.take(k) =~= start);
            assert(self@ =~= start.filter(stays));
        }
        effects
    }

    /// Ends the routes whose deadlines have passed.
    pub fn expired(&mut self, now: u64) -> (effects: Vec<Effect>)
        requires
            sound(old(self)@),
            generation(old(self)@) < u64::MAX,
        ensures
            expire_step(old(self)@, now) == (Step {
                calls: final(self)@,
                effects: seen(effects@),
            }),
            sound(final(self)@),
            generation(final(self)@) <= generation(old(self)@),
    {
        proof {
            law_expiring_keeps_routes_sound(self@, now);
        }
        let ghost start = self@;
        let ghost gone = |c: CallV| c.route.deadline <= now;
        let ghost stays = |c: CallV| c.route.deadline > now;
        let ghost mut k: int = 0;
        let mut effects: Vec<Effect> = nothing();
        let mut i: usize = 0;
        proof {
            reveal(Seq::filter);
            assert(start.take(0).filter(gone) =~= Seq::<CallV>::empty());
            assert(start.take(0).filter(stays) =~= Seq::<CallV>::empty());
            assert(start.skip(0) =~= start);
        }
        while i < self.calls.len()
            invariant
                0 <= k <= start.len(),
                sound(start),
                generation(start) < u64::MAX,
                gone == |c: CallV| c.route.deadline <= now,
                stays == |c: CallV| c.route.deadline > now,
                i == start.take(k).filter(stays).len(),
                self@ == start.take(k).filter(stays) + start.skip(k),
                seen(effects@) == endings(
                    start.take(k).filter(gone),
                    "screenshot route deadline elapsed"@,
                ),
            decreases start.len() - k,
        {
            let ghost c = start[k];
            proof {
                assert(self@[i as int] == c);
                assert(self.calls@[i as int]@ == c);
                lemma_filter_step(start, gone, k);
                lemma_filter_step(start, stays, k);
                lemma_generation(start, k);
            }
            let ghost kept = start.take(k).filter(stays);
            if self.calls[i].route.deadline <= now {
                let ghost prior = self@;
                let entry = self.calls.remove(i);
                assert(self@ =~= prior.remove(i as int));
                append(
                    &mut effects,
                    close_route(entry, "screenshot route deadline elapsed", true),
                );
                proof {
                    let done = start.take(k).filter(gone);
                    assert(done.push(c).drop_last() =~= done);
                    assert(self@ =~= kept + start.skip(k + 1));
                }
            } else {
                assert(self@ =~= kept.push(c) + start.skip(k + 1));
                i += 1;
            }
            proof {
                k = k + 1;
            }
        }
        proof {
            assert(k == start.len());
            assert(start.take(k) =~= start);
            assert(self@ =~= start.filter(stays));
        }
        effects
    }

    /// A timer of one generation of a route fires.
    pub fn timeout(&mut self, call_id: &str, generation: u64, now: u64) -> (effects: Vec<Effect>)
        requires
            sound(old(self)@),
            crate::screenshot::model::generation(old(self)@) < u64::MAX,
        ensures
            timeout_step(old(self)@, call_id@, generation, now) == (Step {
                calls: final(self)@,
                effects: seen(effects@),
            }),
            sound(final(self)@),
            crate::screenshot::model::generation(final(self)@)
                <= crate::screenshot::model::generation(old(self)@),
    {
        proof {
            law_ending_keeps_routes_sound(
                self@,
                call_id@,
                "screenshot route deadline elapsed"@,
                true,
            );
        }
        match self.find(call_id) {
            Some(i) => {
                if self.calls[i].route.sequence != generation || self.calls[i].route.deadline
                    > now {
                    nothing()
                } else {
                    self.conclude(i, "screenshot route deadline elapsed")
                }
            },
            None => nothing(),
        }
    }

    /// The latest generation of the routes.
    pub fn generation(&self) -> (latest: u64)
        ensures
            latest == generation(self@),
    {
        let mut latest: u64 = 0;
        let mut i: usize = 0;
        while i < self.calls.len()
            invariant
                i <= self.calls@.len(),
                latest == generation(self@.take(i as int)),
            decreases self.calls@.len() - i,
        {
            assert(self@.take(i + 1).drop_last() =~= self@.take(i as int));
            assert(self@.take(i + 1).last() == self.calls@[i as int]@);
            if latest < self.calls[i].route.sequence {
                latest = self.calls[i].route.sequence;
            }
            i += 1;
        }
        assert(self@.take(i as int) =~= self@);
        latest
    }

    /// The generation of the route of a call.
    pub fn sequence(&self, call_id: &str) -> (sequence: Option<u64>)
        requires
            sound(self@),
        ensures
            sequence == if routed(self@, call_id@) {
                Some(route(self@, call_id@).sequence)
            } else {
                None
            },
    {
        match self.find(call_id) {
            Some(i) => Some(self.calls[i].route.sequence),
            None => None,
        }
    }
}

impl Default for Router {
    /// A router without routes.
    fn default() -> (router: Router)
        ensures
            router@ == Seq::<CallV>::empty(),
            sound(router@),
    {
        Router::new()
    }
}

/// One more element of a filtered prefix.
proof fn lemma_filter_step(calls: Seq<CallV>, keep: spec_fn(CallV) -> bool, k: int)
    requires
        0 <= k < calls.len(),
    ensures
        calls.take(k + 1).filter(keep) == if keep(calls[k]) {
            calls.take(k).filter(keep).push(calls[k])
        } else {
            calls.take(k).filter(keep)
        },
{
    reveal(Seq::filter);
    assert(calls.take(k + 1).drop_last() =~= calls.take(k));
    assert(calls.take(k + 1).last() == calls[k]);
}

/// What has to be done is seen as what it is, each thing at its place.
pub proof fn law_effects_are_seen_as_they_are(effect: Effect, effects: Seq<Effect>)
    ensures
        match effect {
            Effect::Send { socket, packet } => effect@ == (EffectV::Send {
                socket,
                packet: packet@,
            }),
            Effect::Complete { call_id, packet } => effect@ == (EffectV::Complete {
                call_id: call_id@,
                packet: packet@,
            }),
            Effect::Close { socket } => effect@ == (EffectV::Close { socket }),
            Effect::Observe(fact) => effect@ == EffectV::Observe(fact@),
        },
        seen(effects).len() == effects.len(),
        forall|i: int| 0 <= i < effects.len() ==> #[trigger] seen(effects)[i] == effects[i]@,
{
}

/// A value that may be left out is seen as it is.
pub proof fn law_optional_values_are_seen_as_they_are(value: Option<Json>)
    ensures
        value matches Some(v) ==> json_view(value) == Some(v@),
        value is None ==> json_view(value) is None,
{
}

} // verus!
