//! What the source of a picture, its writer and the caller can count on.

use crate::json::{same, Val};
use crate::screenshot::base64::{encoded, law_decoding_is_unique, stands_for};
use crate::screenshot::manifest::{id_ok, manifest_error, receipt_ok};
use crate::screenshot::model::{
    admitted, announced, binding_value, bystanders, chunk_len, command_value, disconnect_step,
    distinct, end_step, ending, endings, expire_step, first_objection, generation, held_output,
    index, lemma_generation, packet_keys, packet_step, register_error, registered, removed,
    replacement, replacements, reply_error, reply_keys, result_value, rival, route, routed,
    sizes_of, sound, sound_route, source_packet, source_step, timeout_step, tool_error, uses,
    violation, writer_step, CallV, EffectV, PacketV, Phase, RouteV, Sizes, LAST_INSTANT,
};
use crate::serial::{compact, parsed};
use crate::text::byte_len;
use vstd::prelude::*;
use vstd::utf8::encode_utf8;

verus! {

// ---------------------------------------------------------------------------
// Places
// ---------------------------------------------------------------------------

proof fn lemma_at(calls: Seq<CallV>, i: int)
    requires
        distinct(calls),
        0 <= i < calls.len(),
    ensures
        routed(calls, calls[i].id),
        index(calls, calls[i].id) == i,
        route(calls, calls[i].id) == calls[i].route,
{
    assert(calls[i].id == calls[i].id);
    let j = index(calls, calls[i].id);
    assert(calls[j].id == calls[i].id);
}

/// Whether all calls but one are as before.
pub open spec fn others_stay(before: Seq<CallV>, after: Seq<CallV>, i: int) -> bool {
    &&& after.len() == before.len()
    &&& after[i].id == before[i].id
    &&& forall|k: int| 0 <= k < before.len() && k != i ==> #[trigger] after[k] == before[k]
}

// ---------------------------------------------------------------------------
// What is said
// ---------------------------------------------------------------------------

/// Whether a binding names the project, the operation, the attempt and the two
/// sockets of a route.
pub open spec fn names_the_route(
    binding: Val,
    id: Seq<char>,
    route: RouteV,
    writer: u64,
) -> bool {
    &&& binding.at("operation"@).text_at("slug"@) == Some(route.slug)
    &&& binding.at("operation"@).text_at("caller"@) == Some("shotgun"@)
    &&& binding.at("operation"@).text_at("operation_id"@) == Some(route.operation)
    &&& binding.at("attempt"@).text_at("call_id"@) == Some(id)
    &&& binding.at("attempt"@).text_at("attempt_id"@) == Some(route.attempt)
    &&& binding.uint_at("source_socket"@) == Some(route.source)
    &&& binding.uint_at("writer_socket"@) == Some(writer)
}

/// A binding names its route.
pub proof fn law_a_binding_names_its_route(id: Seq<char>, route: RouteV, writer: u64)
    requires
        route.writer == Some(writer),
    ensures
        names_the_route(binding_value(id, route), id, route, writer),
{
    reveal_strlit("operation");
    reveal_strlit("attempt");
    reveal_strlit("source_socket");
    reveal_strlit("writer_socket");
    reveal_strlit("call_id");
    reveal_strlit("attempt_id");
    reveal_strlit("slug");
    reveal_strlit("caller");
    reveal_strlit("operation_id");
    assert("operation"@.len() == 9 && "attempt"@.len() == 7 && "source_socket"@.len() == 13
        && "writer_socket"@.len() == 13 && "call_id"@.len() == 7 && "attempt_id"@.len() == 10
        && "slug"@.len() == 4 && "caller"@.len() == 6 && "operation_id"@.len() == 12);
    assert("attempt"@[0] != "call_id"@[0]);
    assert("source_socket"@[0] != "writer_socket"@[0]);
}

/// Whether an effect is a command for the writer of a route.
pub open spec fn is_command(
    effect: EffectV,
    id: Seq<char>,
    route: RouteV,
    writer: u64,
    why: Seq<char>,
) -> bool {
    &&& effect matches EffectV::Send { socket, packet }
    &&& socket == writer
    &&& packet.text_at("what"@) == Some("screenshot_save"@)
    &&& packet.text_at("why"@) == Some(why)
    &&& packet.uint_at("sequence"@) == Some(route.sequence)
    &&& names_the_route(packet.at("binding"@), id, route, writer)
}

/// Whether a value is an object with these members, and those of every command.
pub open spec fn has_only_fields(effect: EffectV, fields: Set<Seq<char>>) -> bool {
    &&& effect matches EffectV::Send { socket, packet }
    &&& packet matches Val::Object(m)
    &&& m.dom() =~= fields.union(set!["what"@, "why"@, "binding"@, "sequence"@])
}

proof fn lemma_command(id: Seq<char>, route: RouteV, writer: u64, why: Seq<char>, fields: Val)
    requires
        route.writer == Some(writer),
        fields is Object,
    ensures
        is_command(
            EffectV::Send { socket: writer, packet: command_value(id, route, why, fields) },
            id,
            route,
            writer,
            why,
        ),
        has_only_fields(
            EffectV::Send { socket: writer, packet: command_value(id, route, why, fields) },
            fields->Object_0.dom(),
        ),
        forall|k: Seq<char>|
            k != "what"@ && k != "why"@ && k != "binding"@ && k != "sequence"@
                ==> #[trigger] command_value(id, route, why, fields).get(k) == fields.get(k),
{
    law_a_binding_names_its_route(id, route, writer);
    reveal_strlit("what");
    reveal_strlit("why");
    reveal_strlit("binding");
    reveal_strlit("sequence");
    assert("what"@.len() == 4 && "why"@.len() == 3 && "binding"@.len() == 7
        && "sequence"@.len() == 8);
}

/// Whether a packet tells the source of a call about an attempt at its operation.
pub open spec fn is_about(packet: Val, id: Seq<char>, route: RouteV, why: Seq<char>) -> bool {
    &&& packet.text_at("what"@) == Some("screenshot_save"@)
    &&& packet.text_at("why"@) == Some(why)
    &&& packet.text_at("call_id"@) == Some(id)
    &&& packet.text_at("operation_id"@) == Some(route.operation)
    &&& packet.text_at("attempt_id"@) == Some(route.attempt)
}

/// What is relayed is about its call, and has a reason exactly where there is one.
pub proof fn law_a_result_is_about_its_call(
    id: Seq<char>,
    route: RouteV,
    why: Seq<char>,
    reason: Option<Seq<char>>,
)
    ensures
        is_about(result_value(id, route, why, reason), id, route, why),
        result_value(id, route, why, reason).text_at("reason"@) == reason,
        result_value(id, route, why, reason) matches Val::Object(m) && m.dom() =~= if reason is Some {
            set!["what"@, "why"@, "call_id"@, "operation_id"@, "attempt_id"@, "reason"@]
        } else {
            set!["what"@, "why"@, "call_id"@, "operation_id"@, "attempt_id"@]
        },
{
    reveal_strlit("what");
    reveal_strlit("why");
    reveal_strlit("call_id");
    reveal_strlit("operation_id");
    reveal_strlit("attempt_id");
    reveal_strlit("reason");
    assert("what"@.len() == 4 && "why"@.len() == 3 && "call_id"@.len() == 7
        && "operation_id"@.len() == 12 && "attempt_id"@.len() == 10 && "reason"@.len() == 6);
}

/// Whether a socket is closed for a reason, which is recorded.
pub open spec fn is_closed(effects: Seq<EffectV>, client: u64, reason: Seq<char>) -> bool {
    &&& effects.len() == 2
    &&& effects[0] matches EffectV::Observe(fact)
    &&& fact.text_at("who"@) == Some("screenshot"@)
    &&& fact.text_at("what"@) == Some("reject_route"@)
    &&& fact.text_at("why"@) == Some(reason)
    &&& fact.text_at("how"@) == Some("websocket"@)
    &&& fact.at("with"@).uint_at("socket"@) == Some(client)
    &&& effects[1] == EffectV::Close { socket: client }
}

proof fn lemma_violation(client: u64, reason: Seq<char>)
    ensures
        is_closed(violation(client, reason), client, reason),
{
    reveal_strlit("who");
    reveal_strlit("what");
    reveal_strlit("why");
    reveal_strlit("how");
    reveal_strlit("with");
    reveal_strlit("socket");
    assert("who"@.len() == 3 && "what"@.len() == 4 && "why"@.len() == 3 && "how"@.len() == 3
        && "with"@.len() == 4 && "socket"@.len() == 6);
    assert("who"@[2] != "why"@[2]);
    assert("who"@[0] != "how"@[0]);
    assert("what"@[1] != "with"@[1]);
    assert("why"@[0] != "how"@[0]);
}

// ---------------------------------------------------------------------------
// Packets of the source
// ---------------------------------------------------------------------------

/// Whether a value is left out, null or a text.
pub open spec fn maybe_text(v: Val) -> bool {
    v is Null || v is Text
}

/// A packet that is an object is read by the names of its members. It needs the
/// five texts that name it; the other four may be left out or null, and no other
/// member may be there.
pub proof fn law_a_packet_is_read_by_name(m: Map<Seq<char>, Val>)
    ensures
        source_packet(Val::Object(m)) is Some <==> {
            let data = Val::Object(m);
            &&& data.at("what"@) is Text && data.at("why"@) is Text && data.at("call_id"@) is Text
            &&& data.at("operation_id"@) is Text && data.at("attempt_id"@) is Text
            &&& maybe_text(data.at("where"@)) && maybe_text(data.at("data"@))
            &&& data.at("offset"@) is Null || data.at("offset"@) is Unsigned
            &&& forall|k: Seq<char>| #[trigger]
                m.contains_key(k) ==> k == "what"@ || k == "why"@ || k == "call_id"@ || k
                    == "operation_id"@ || k == "attempt_id"@ || k == "where"@ || k == "intent"@ || k
                    == "offset"@ || k == "data"@
        },
        source_packet(Val::Object(m)) matches Some(p) ==> {
            let data = Val::Object(m);
            &&& Some(p.what) == data.text_at("what"@)
            &&& Some(p.why) == data.text_at("why"@)
            &&& Some(p.call_id) == data.text_at("call_id"@)
            &&& Some(p.operation_id) == data.text_at("operation_id"@)
            &&& Some(p.attempt_id) == data.text_at("attempt_id"@)
            &&& p.place == data.text_at("where"@)
            &&& p.data == data.text_at("data"@)
            &&& p.offset == data.uint_at("offset"@)
            &&& p.intent == match data.at("intent"@) {
                Val::Null => None,
                v => Some(v),
            }
        },
{
    let keys = packet_keys();
    let data = Val::Object(m);
    if source_packet(data) is Some {
        assert forall|k: Seq<char>| #[trigger] m.contains_key(k) implies keys.contains(k) by {
            assert(m.dom().contains(k));
        }
    }
    if forall|k: Seq<char>| #[trigger]
        m.contains_key(k) ==> k == "what"@ || k == "why"@ || k == "call_id"@ || k == "operation_id"@
            || k == "attempt_id"@ || k == "where"@ || k == "intent"@ || k == "offset"@ || k
            == "data"@ {
        assert forall|k: Seq<char>| m.dom().contains(k) implies keys.contains(k) by {
            assert(m.contains_key(k));
        }
        assert(m.dom().subset_of(keys));
    }
}

/// What stands at a place of a list, or null.
pub open spec fn item(items: Seq<Val>, k: int) -> Val {
    if k < items.len() {
        items[k]
    } else {
        Val::Null
    }
}

/// A packet that is a list is read by the places of its items, in the same order.
pub proof fn law_a_packet_is_read_by_place(items: Seq<Val>)
    ensures
        source_packet(Val::Array(items)) is Some <==> {
            &&& 5 <= items.len() <= 9
            &&& items[0] is Text && items[1] is Text && items[2] is Text && items[3] is Text
                && items[4] is Text
            &&& maybe_text(item(items, 5)) && maybe_text(item(items, 8))
            &&& item(items, 7) is Null || item(items, 7) is Unsigned
        },
        source_packet(Val::Array(items)) matches Some(p) ==> {
            &&& Val::Text(p.what) == items[0]
            &&& Val::Text(p.why) == items[1]
            &&& Val::Text(p.call_id) == items[2]
            &&& Val::Text(p.operation_id) == items[3]
            &&& Val::Text(p.attempt_id) == items[4]
            &&& p.place == item(items, 5).as_text()
            &&& p.intent == match item(items, 6) {
                Val::Null => None,
                v => Some(v),
            }
            &&& p.offset == item(items, 7).as_uint()
            &&& p.data == item(items, 8).as_text()
        },
{
}

/// Other values are no packets.
pub proof fn law_other_values_are_no_packets(data: Val)
    requires
        data !is Object,
        data !is Array,
    ensures
        source_packet(data) is None,
{
}

/// A packet that is too long closes its socket, and so does one that cannot be
/// read; one with a binding is a reply, and every other is a command.
pub proof fn law_packets_are_commands_or_replies(
    calls: Seq<CallV>,
    client: u64,
    data: Val,
    sizes: Sizes,
    writers: Seq<u64>,
    now: u64,
)
    ensures
        ({
            let step = packet_step(calls, client, data, sizes, writers, now);
            if !sizes.packet {
                step.calls == calls && is_closed(
                    step.effects,
                    client,
                    "screenshot packet exceeds limit"@,
                )
            } else if data.get("binding"@) is Some {
                step == writer_step(calls, client, data, sizes.requested, now)
            } else if source_packet(data) is None {
                step.calls == calls && is_closed(
                    step.effects,
                    client,
                    "invalid screenshot source packet"@,
                )
            } else {
                step == source_step(
                    calls,
                    client,
                    source_packet(data)->0,
                    sizes.intent,
                    writers,
                    now,
                )
            }
        }),
{
    lemma_violation(client, "screenshot packet exceeds limit"@);
    lemma_violation(client, "invalid screenshot source packet"@);
}

/// The sizes of a packet are those of its compact text: 96 KiB for the packet, and
/// 16 KiB for a manifest in it.
pub proof fn law_sizes_are_of_the_compact_text(data: Val)
    ensures
        sizes_of(data).packet <==> (compact(data) matches Some(t) && byte_len(t) <= 98_304),
        sizes_of(data).requested <==> (compact(data.at("receipt"@).at("requested"@)) matches Some(
            t,
        ) && byte_len(t) <= 16_384),
        source_packet(data) matches Some(p) ==> (p.intent matches Some(v) ==> (sizes_of(data).intent
            <==> (compact(v) matches Some(t) && byte_len(t) <= 16_384))),
{
}

/// Whether a command belongs to a call: it names the call, its operation and an
/// attempt, and comes from the source of the call.
pub open spec fn belongs(calls: Seq<CallV>, i: int, client: u64, packet: PacketV) -> bool {
    &&& distinct(calls)
    &&& 0 <= i < calls.len()
    &&& packet.call_id == calls[i].id
    &&& packet.what == "screenshot_save"@
    &&& packet.operation_id == calls[i].route.operation
    &&& id_ok(packet.attempt_id)
    &&& client == calls[i].route.source
    &&& calls[i].route.sequence < u64::MAX
    &&& calls[i].route.phase != Phase::Done
}

/// Whether a command has no field of its own.
pub open spec fn is_bare(packet: PacketV) -> bool {
    packet.intent is None && packet.offset is None && packet.data is None && packet.place is None
}

proof fn lemma_chunk_len(text: Seq<char>, n: int)
    requires
        stands_for(encode_utf8(text), n),
    ensures
        chunk_len(text) == n,
        n >= 1,
{
    let bytes = encode_utf8(text);
    let m = chunk_len(text);
    assert(stands_for(bytes, m));
    let a = choose|a: Seq<u8>|
        a.len() == n && #[trigger] encoded(a) == bytes;
    let b = choose|b: Seq<u8>|
        b.len() == m && #[trigger] encoded(b) == bytes;
    law_decoding_is_unique(a, b);
}

/// A chunk that comes next is forwarded as it came: the writer gets the text and
/// the offset that the source sent, and nothing else of it. The route then waits
/// for the acknowledgement of exactly the bytes that the text stands for.
pub proof fn law_a_chunk_is_forwarded_as_it_came(
    calls: Seq<CallV>,
    client: u64,
    packet: PacketV,
    intent_fits: bool,
    writers: Seq<u64>,
    now: u64,
    i: int,
    n: int,
)
    requires
        belongs(calls, i, client, packet),
        now <= LAST_INSTANT,
        packet.why == "chunk"@,
        packet.attempt_id == calls[i].route.attempt,
        packet.intent is None,
        packet.place is None,
        packet.data is Some,
        stands_for(encode_utf8(packet.data->0), n),
        packet.offset == Some(calls[i].route.offset),
        calls[i].route.phase == Phase::Ready,
        calls[i].route.writer is Some,
        calls[i].route.intent is Some,
        calls[i].route.intent->0.uint_at("bytes"@) matches Some(all) && calls[i].route.offset + n
            <= all,
    ensures
        ({
            let was = calls[i].route;
            let step = source_step(calls, client, packet, intent_fits, writers, now);
            let is = step.calls[i].route;
            &&& others_stay(calls, step.calls, i)
            &&& is == (RouteV {
                phase: Phase::Chunk((was.offset + n) as u64),
                sequence: (was.sequence + 1) as u64,
                deadline: (now + 15_000_000_000) as u64,
                ..was
            })
            &&& step.effects.len() == 1
            &&& is_command(step.effects[0], calls[i].id, is, was.writer->0, "chunk"@)
            &&& has_only_fields(step.effects[0], set!["offset"@, "data"@])
            &&& step.effects[0]->Send_packet.get("data"@) == Some(Val::Text(packet.data->0))
            &&& step.effects[0]->Send_packet.get("offset"@) == Some(Val::Unsigned(packet.offset->0))
        }),
{
    lemma_at(calls, i);
    lemma_chunk_len(packet.data->0, n);
    reveal_strlit("begin");
    reveal_strlit("status");
    reveal_strlit("chunk");
    reveal_strlit("finish");
    reveal_strlit("cancel");
    reveal_strlit("what");
    reveal_strlit("why");
    reveal_strlit("binding");
    reveal_strlit("sequence");
    reveal_strlit("offset");
    reveal_strlit("data");
    reveal_strlit("intent");
    assert("begin"@.len() == 5 && "status"@.len() == 6 && "chunk"@.len() == 5
        && "finish"@.len() == 6 && "cancel"@.len() == 6 && "what"@.len() == 4
        && "why"@.len() == 3 && "binding"@.len() == 7 && "sequence"@.len() == 8
        && "offset"@.len() == 6 && "data"@.len() == 4 && "intent"@.len() == 6);
    assert("begin"@[0] != "chunk"@[0]);
    assert("status"@[0] != "finish"@[0]);
    assert("status"@[0] != "cancel"@[0]);
    assert("status"@[0] != "offset"@[0]);
    assert("status"@[0] != "intent"@[0]);
    assert("finish"@[0] != "cancel"@[0]);
    assert("finish"@[0] != "offset"@[0]);
    assert("finish"@[0] != "intent"@[0]);
    assert("cancel"@[0] != "offset"@[0]);
    assert("cancel"@[0] != "intent"@[0]);
    assert("what"@[0] != "data"@[0]);
    assert("offset"@[0] != "intent"@[0]);
    let step = source_step(calls, client, packet, intent_fits, writers, now);
    let fields = Val::empty_object().with("offset"@, Val::Unsigned(packet.offset->0)).with(
        "data"@,
        Val::Text(packet.data->0),
    );
    assert(fields->Object_0.dom() =~= set!["offset"@, "data"@]);
    lemma_command(
        calls[i].id,
        step.calls[i].route,
        calls[i].route.writer->0,
        "chunk"@,
        fields,
    );
    lemma_only_mine(calls, step.calls, i);
}

proof fn lemma_only_mine(before: Seq<CallV>, after: Seq<CallV>, i: int)
    requires
        distinct(before),
        0 <= i < before.len(),
        after.len() == before.len(),
        forall|k: int|
            0 <= k < before.len() ==> #[trigger] after[k] == if before[k].id == before[i].id {
                CallV { id: before[i].id, route: after[i].route }
            } else {
                before[k]
            },
    ensures
        others_stay(before, after, i),
{
    assert forall|k: int| 0 <= k < before.len() && k != i implies #[trigger] after[k]
        == before[k] by {
        assert(before[k].id != before[i].id);
    }
}

/// Whatever is sent on as a chunk is what the source sent: its text, and its
/// offset.
pub proof fn law_no_chunk_is_changed(
    calls: Seq<CallV>,
    client: u64,
    packet: PacketV,
    intent_fits: bool,
    writers: Seq<u64>,
    now: u64,
    k: int,
)
    requires
        sound(calls),
        packet.why == "chunk"@,
        0 <= k < source_step(calls, client, packet, intent_fits, writers, now).effects.len(),
    ensures
        source_step(calls, client, packet, intent_fits, writers, now).effects[k] matches EffectV::Send {
            socket,
            packet: sent,
        } ==> (sent.text_at("why"@) == Some("chunk"@) ==> {
            &&& sent.text_at("data"@) == packet.data && packet.data is Some
            &&& sent.uint_at("offset"@) == packet.offset && packet.offset is Some
        }),
{
    let id = packet.call_id;
    reveal_strlit("begin");
    reveal_strlit("status");
    reveal_strlit("chunk");
    reveal_strlit("finish");
    reveal_strlit("cancel");
    reveal_strlit("what");
    reveal_strlit("why");
    reveal_strlit("binding");
    reveal_strlit("sequence");
    reveal_strlit("offset");
    reveal_strlit("data");
    reveal_strlit("call_id");
    reveal_strlit("operation_id");
    reveal_strlit("attempt_id");
    reveal_strlit("reason");
    reveal_strlit("rejected");
    reveal_strlit("unresolved");
    assert("begin"@.len() == 5 && "status"@.len() == 6 && "chunk"@.len() == 5
        && "finish"@.len() == 6 && "cancel"@.len() == 6 && "what"@.len() == 4
        && "why"@.len() == 3 && "binding"@.len() == 7 && "sequence"@.len() == 8
        && "offset"@.len() == 6 && "data"@.len() == 4 && "call_id"@.len() == 7
        && "operation_id"@.len() == 12 && "attempt_id"@.len() == 10 && "reason"@.len() == 6
        && "rejected"@.len() == 8 && "unresolved"@.len() == 10);
    assert("begin"@[0] != "chunk"@[0]);
    assert("status"@[0] != "finish"@[0]);
    assert("status"@[0] != "cancel"@[0]);
    assert("status"@[0] != "offset"@[0]);
    assert("status"@[0] != "reason"@[0]);
    assert("finish"@[0] != "cancel"@[0]);
    assert("finish"@[0] != "offset"@[0]);
    assert("finish"@[0] != "reason"@[0]);
    assert("cancel"@[0] != "offset"@[0]);
    assert("cancel"@[0] != "reason"@[0]);
    assert("what"@[0] != "data"@[0]);
    assert("binding"@[0] != "call_id"@[0]);
    assert("sequence"@[0] != "rejected"@[0]);
    assert("offset"@[0] != "reason"@[0]);
    assert("attempt_id"@[0] != "unresolved"@[0]);
    if routed(calls, id) {
        let i = index(calls, id);
        lemma_at(calls, i);
        assert(sound_route(calls[i].route));
    }
}

/// A chunk that does not come next closes the socket of its source, and changes
/// nothing.
pub proof fn law_a_chunk_that_is_not_next_is_refused(
    calls: Seq<CallV>,
    client: u64,
    packet: PacketV,
    intent_fits: bool,
    writers: Seq<u64>,
    now: u64,
    i: int,
)
    requires
        belongs(calls, i, client, packet),
        packet.why == "chunk"@,
        packet.attempt_id == calls[i].route.attempt,
        calls[i].route.phase == Phase::Ready,
        calls[i].route.writer is Some,
    ensures
        ({
            let was = calls[i].route;
            let step = source_step(calls, client, packet, intent_fits, writers, now);
            let refused = |reason: Seq<char>|
                step.calls == calls && is_closed(step.effects, client, reason);
            &&& packet.intent is Some || packet.place is Some ==> refused("invalid chunk fields"@)
            &&& packet.intent is None && packet.place is None && packet.data is None ==> refused(
                "missing chunk data"@,
            )
            &&& packet.intent is None && packet.place is None && packet.data is Some && (forall|n: int|
                !#[trigger] stands_for(encode_utf8(packet.data->0), n)) ==> refused(
                "invalid or oversized base64 chunk"@,
            )
            &&& forall|n: int|
                packet.intent is None && packet.place is None && packet.data is Some
                    && #[trigger] stands_for(encode_utf8(packet.data->0), n) && (packet.offset
                    != Some(was.offset) || was.offset + n > announced(was)) ==> refused(
                    "chunk offset or manifest byte count differs"@,
                )
        }),
{
    lemma_at(calls, i);
    reveal_strlit("begin");
    reveal_strlit("status");
    reveal_strlit("chunk");
    reveal_strlit("finish");
    reveal_strlit("cancel");
    assert("begin"@.len() == 5 && "status"@.len() == 6 && "chunk"@.len() == 5
        && "finish"@.len() == 6 && "cancel"@.len() == 6);
    assert("begin"@[0] != "chunk"@[0]);
    assert("status"@[0] != "finish"@[0]);
    assert("status"@[0] != "cancel"@[0]);
    assert("finish"@[0] != "cancel"@[0]);
    assert(calls.update(i, CallV { id: calls[i].id, route: calls[i].route }) =~= calls);
    lemma_violation(client, "invalid chunk fields"@);
    lemma_violation(client, "missing chunk data"@);
    lemma_violation(client, "invalid or oversized base64 chunk"@);
    lemma_violation(client, "chunk offset or manifest byte count differs"@);
    assert forall|n: int|
        packet.data is Some && #[trigger] stands_for(encode_utf8(packet.data->0), n) implies chunk_len(
        packet.data->0,
    ) == n && n >= 1 by {
        lemma_chunk_len(packet.data->0, n);
    }
}

/// A manifest announces the bytes that it names.
pub proof fn law_a_manifest_announces_its_bytes(route: RouteV)
    ensures
        route.intent matches Some(v) ==> (v.uint_at("bytes"@) matches Some(n) ==> announced(route)
            == n),
        route.intent is None ==> announced(route) == 0,
{
}

/// The writer that a command goes to: that of its route, or else the one local
/// Wicket.
pub open spec fn writer_of(route: RouteV, writers: Seq<u64>) -> u64 {
    match route.writer {
        Some(w) => w,
        None => writers[0],
    }
}

/// Whether a command finds its writer.
pub open spec fn has_writer(route: RouteV, writers: Seq<u64>) -> bool {
    route.writer is Some || writers.len() == 1
}

/// A question for the state of an operation is forwarded, and the route waits for
/// the answer; an earlier answer is forgotten.
pub proof fn law_a_status_is_forwarded(
    calls: Seq<CallV>,
    client: u64,
    packet: PacketV,
    intent_fits: bool,
    writers: Seq<u64>,
    now: u64,
    i: int,
)
    requires
        belongs(calls, i, client, packet),
        now <= LAST_INSTANT,
        packet.why == "status"@,
        calls[i].route.phase == Phase::AwaitingBegin,
        packet.intent is None,
        packet.offset is None,
        packet.data is None,
        packet.place == Some("localhost"@),
        has_writer(calls[i].route, writers),
    ensures
        ({
            let was = calls[i].route;
            let step = source_step(calls, client, packet, intent_fits, writers, now);
            let is = step.calls[i].route;
            let writer = writer_of(was, writers);
            &&& others_stay(calls, step.calls, i)
            &&& is == (RouteV {
                writer: Some(writer),
                attempt: packet.attempt_id,
                result: None,
                phase: Phase::Querying,
                sequence: (was.sequence + 1) as u64,
                deadline: (now + 30_000_000_000) as u64,
                ..was
            })
            &&& step.effects.len() == 1
            &&& is_command(step.effects[0], calls[i].id, is, writer, "status"@)
            &&& has_only_fields(step.effects[0], set![])
        }),
{
    lemma_at(calls, i);
    reveal_strlit("begin");
    reveal_strlit("status");
    reveal_strlit("chunk");
    reveal_strlit("finish");
    reveal_strlit("cancel");
    assert("begin"@.len() == 5 && "status"@.len() == 6 && "chunk"@.len() == 5
        && "finish"@.len() == 6 && "cancel"@.len() == 6);
    assert("begin"@[0] != "chunk"@[0]);
    assert("status"@[0] != "finish"@[0]);
    assert("status"@[0] != "cancel"@[0]);
    assert("finish"@[0] != "cancel"@[0]);
    let step = source_step(calls, client, packet, intent_fits, writers, now);
    lemma_command(
        calls[i].id,
        step.calls[i].route,
        writer_of(calls[i].route, writers),
        "status"@,
        Val::empty_object(),
    );
    assert(Val::empty_object()->Object_0.dom() =~= set![]);
    lemma_only_mine(calls, step.calls, i);
}

/// A finish is forwarded once every announced byte was acknowledged; from then on
/// the picture may be there.
pub proof fn law_a_finish_is_forwarded(
    calls: Seq<CallV>,
    client: u64,
    packet: PacketV,
    intent_fits: bool,
    writers: Seq<u64>,
    now: u64,
    i: int,
)
    requires
        belongs(calls, i, client, packet),
        now <= LAST_INSTANT,
        packet.why == "finish"@,
        packet.attempt_id == calls[i].route.attempt,
        calls[i].route.phase == Phase::Ready,
        calls[i].route.writer is Some,
        is_bare(packet),
        calls[i].route.offset == announced(calls[i].route),
    ensures
        ({
            let was = calls[i].route;
            let step = source_step(calls, client, packet, intent_fits, writers, now);
            let is = step.calls[i].route;
            &&& others_stay(calls, step.calls, i)
            &&& is == (RouteV {
                finish_sent: true,
                phase: Phase::Finishing,
                sequence: (was.sequence + 1) as u64,
                deadline: (now + 60_000_000_000) as u64,
                ..was
            })
            &&& step.effects.len() == 1
            &&& is_command(step.effects[0], calls[i].id, is, was.writer->0, "finish"@)
            &&& has_only_fields(step.effects[0], set![])
        }),
{
    lemma_at(calls, i);
    reveal_strlit("begin");
    reveal_strlit("status");
    reveal_strlit("chunk");
    reveal_strlit("finish");
    reveal_strlit("cancel");
    assert("begin"@.len() == 5 && "status"@.len() == 6 && "chunk"@.len() == 5
        && "finish"@.len() == 6 && "cancel"@.len() == 6);
    assert("begin"@[0] != "chunk"@[0]);
    assert("status"@[0] != "finish"@[0]);
    assert("status"@[0] != "cancel"@[0]);
    assert("finish"@[0] != "cancel"@[0]);
    let step = source_step(calls, client, packet, intent_fits, writers, now);
    lemma_command(
        calls[i].id,
        step.calls[i].route,
        calls[i].route.writer->0,
        "finish"@,
        Val::empty_object(),
    );
    assert(Val::empty_object()->Object_0.dom() =~= set![]);
    lemma_only_mine(calls, step.calls, i);
}

/// A receive that is under way can be cancelled, and the cancel is forwarded.
pub proof fn law_a_cancel_is_forwarded(
    calls: Seq<CallV>,
    client: u64,
    packet: PacketV,
    intent_fits: bool,
    writers: Seq<u64>,
    now: u64,
    i: int,
)
    requires
        belongs(calls, i, client, packet),
        now <= LAST_INSTANT,
        packet.why == "cancel"@,
        packet.attempt_id == calls[i].route.attempt,
        calls[i].route.phase == Phase::Opening || calls[i].route.phase == Phase::Ready
            || calls[i].route.phase is Chunk || calls[i].route.phase == Phase::Finishing,
        calls[i].route.writer is Some,
        is_bare(packet),
    ensures
        ({
            let was = calls[i].route;
            let step = source_step(calls, client, packet, intent_fits, writers, now);
            let is = step.calls[i].route;
            &&& others_stay(calls, step.calls, i)
            &&& is == (RouteV {
                phase: Phase::Cancelling,
                sequence: (was.sequence + 1) as u64,
                deadline: (now + 15_000_000_000) as u64,
                ..was
            })
            &&& step.effects.len() == 1
            &&& is_command(step.effects[0], calls[i].id, is, was.writer->0, "cancel"@)
            &&& has_only_fields(step.effects[0], set![])
        }),
{
    lemma_at(calls, i);
    reveal_strlit("begin");
    reveal_strlit("status");
    reveal_strlit("chunk");
    reveal_strlit("finish");
    reveal_strlit("cancel");
    assert("begin"@.len() == 5 && "status"@.len() == 6 && "chunk"@.len() == 5
        && "finish"@.len() == 6 && "cancel"@.len() == 6);
    assert("begin"@[0] != "chunk"@[0]);
    assert("status"@[0] != "finish"@[0]);
    assert("status"@[0] != "cancel"@[0]);
    assert("finish"@[0] != "cancel"@[0]);
    let step = source_step(calls, client, packet, intent_fits, writers, now);
    lemma_command(
        calls[i].id,
        step.calls[i].route,
        calls[i].route.writer->0,
        "cancel"@,
        Val::empty_object(),
    );
    assert(Val::empty_object()->Object_0.dom() =~= set![]);
    lemma_only_mine(calls, step.calls, i);
}

/// A command with fields that it does not have, a finish before the last byte, and
/// a command that its phase does not allow close the socket of the source, and
/// change nothing.
pub proof fn law_a_misplaced_command_is_refused(
    calls: Seq<CallV>,
    client: u64,
    packet: PacketV,
    intent_fits: bool,
    writers: Seq<u64>,
    now: u64,
    i: int,
)
    requires
        belongs(calls, i, client, packet),
        packet.why != "begin"@,
        packet.why == "status"@ || packet.attempt_id == calls[i].route.attempt,
    ensures
        ({
            let was = calls[i].route;
            let step = source_step(calls, client, packet, intent_fits, writers, now);
            let refused = |reason: Seq<char>|
                step.calls == calls && is_closed(step.effects, client, reason);
            &&& packet.why == "status"@ && was.phase == Phase::AwaitingBegin && (packet.intent is Some
                || packet.offset is Some || packet.data is Some || packet.place != Some(
                "localhost"@,
            )) ==> refused("invalid status fields"@)
            &&& packet.why == "finish"@ && was.phase == Phase::Ready && (!is_bare(packet)
                || was.offset != announced(was)) ==> refused(
                "finish requires exactly the admitted bytes and no extra fields"@,
            )
            &&& packet.why == "cancel"@ && (was.phase == Phase::Opening || was.phase == Phase::Ready
                || was.phase is Chunk || was.phase == Phase::Finishing) && !is_bare(packet)
                ==> refused("invalid cancel fields"@)
            &&& !(packet.why == "status"@ && was.phase == Phase::AwaitingBegin) && !((packet.why
                == "chunk"@ || packet.why == "finish"@) && was.phase == Phase::Ready) && !(packet.why
                == "cancel"@ && (was.phase == Phase::Opening || was.phase == Phase::Ready
                || was.phase is Chunk || was.phase == Phase::Finishing)) ==> refused(
                "screenshot command violates phase or one-chunk credit"@,
            )
        }),
{
    lemma_at(calls, i);
    reveal_strlit("begin");
    reveal_strlit("status");
    reveal_strlit("chunk");
    reveal_strlit("finish");
    reveal_strlit("cancel");
    assert("begin"@.len() == 5 && "status"@.len() == 6 && "chunk"@.len() == 5
        && "finish"@.len() == 6 && "cancel"@.len() == 6);
    assert("begin"@[0] != "chunk"@[0]);
    assert("status"@[0] != "finish"@[0]);
    assert("status"@[0] != "cancel"@[0]);
    assert("finish"@[0] != "cancel"@[0]);
    assert(calls.update(i, CallV { id: calls[i].id, route: calls[i].route }) =~= calls);
    lemma_violation(client, "invalid status fields"@);
    lemma_violation(client, "finish requires exactly the admitted bytes and no extra fields"@);
    lemma_violation(client, "invalid cancel fields"@);
    lemma_violation(client, "screenshot command violates phase or one-chunk credit"@);
}

/// A command that does not belong to the call that it names closes its socket, and
/// changes nothing.
pub proof fn law_a_foreign_command_is_refused(
    calls: Seq<CallV>,
    client: u64,
    packet: PacketV,
    intent_fits: bool,
    writers: Seq<u64>,
    now: u64,
    i: int,
)
    requires
        distinct(calls),
        0 <= i < calls.len(),
        packet.call_id == calls[i].id,
        packet.what != "screenshot_save"@ || packet.operation_id != calls[i].route.operation
            || !id_ok(packet.attempt_id) || client != calls[i].route.source,
    ensures
        source_step(calls, client, packet, intent_fits, writers, now).calls == calls,
        is_closed(
            source_step(calls, client, packet, intent_fits, writers, now).effects,
            client,
            "screenshot source/call/operation binding differs"@,
        ),
{
    lemma_at(calls, i);
    lemma_violation(client, "screenshot source/call/operation binding differs"@);
}

/// A command of an earlier attempt has no effect.
pub proof fn law_a_late_command_has_no_effect(
    calls: Seq<CallV>,
    client: u64,
    packet: PacketV,
    intent_fits: bool,
    writers: Seq<u64>,
    now: u64,
    i: int,
)
    requires
        belongs(calls, i, client, packet),
        packet.why != "begin"@,
        packet.why != "status"@,
        packet.attempt_id != calls[i].route.attempt,
    ensures
        source_step(calls, client, packet, intent_fits, writers, now).calls == calls,
        source_step(calls, client, packet, intent_fits, writers, now).effects.len() == 0,
{
    lemma_at(calls, i);
}

/// The first command of a route without exactly one local Wicket ends the route.
pub proof fn law_a_status_needs_one_wicket(
    calls: Seq<CallV>,
    client: u64,
    packet: PacketV,
    intent_fits: bool,
    writers: Seq<u64>,
    now: u64,
    i: int,
)
    requires
        belongs(calls, i, client, packet),
        packet.why == "status"@,
        calls[i].route.phase == Phase::AwaitingBegin,
        packet.intent is None,
        packet.offset is None,
        packet.data is None,
        packet.place == Some("localhost"@),
        !has_writer(calls[i].route, writers),
    ensures
        ({
            let was = calls[i].route;
            let step = source_step(calls, client, packet, intent_fits, writers, now);
            &&& step.calls == calls.remove(i)
            &&& step.effects == ending(
                CallV {
                    id: calls[i].id,
                    route: RouteV { attempt: packet.attempt_id, result: None, ..was },
                },
                "screenshot requires exactly one connected local Wicket"@,
                true,
            )
        }),
{
    lemma_at(calls, i);
    reveal_strlit("begin");
    reveal_strlit("status");
    reveal_strlit("chunk");
    reveal_strlit("finish");
    reveal_strlit("cancel");
    assert("begin"@.len() == 5 && "status"@.len() == 6 && "chunk"@.len() == 5
        && "finish"@.len() == 6 && "cancel"@.len() == 6);
    assert("begin"@[0] != "chunk"@[0]);
    assert("status"@[0] != "finish"@[0]);
    assert("status"@[0] != "cancel"@[0]);
    assert("finish"@[0] != "cancel"@[0]);
    let was = calls[i].route;
    let next = CallV {
        id: calls[i].id,
        route: RouteV { attempt: packet.attempt_id, result: None, ..was },
    };
    let rerouted = calls.update(i, next);
    lemma_distinct_update(calls, i, next);
    lemma_at(rerouted, i);
    assert(rerouted.remove(i) =~= calls.remove(i));
}

proof fn lemma_distinct_update(calls: Seq<CallV>, i: int, next: CallV)
    requires
        distinct(calls),
        0 <= i < calls.len(),
        next.id == calls[i].id,
    ensures
        distinct(calls.update(i, next)),
{
    let after = calls.update(i, next);
    assert forall|a: int, b: int|
        0 <= a < after.len() && 0 <= b < after.len() && #[trigger] after[a].id
            == #[trigger] after[b].id implies a == b by {
        assert(calls[a].id == calls[b].id);
    }
}

// ---------------------------------------------------------------------------
// A fresh receive
// ---------------------------------------------------------------------------

/// Whether a call is a live attempt at the operation of another call.
pub open spec fn is_rival(c: CallV, me: CallV) -> bool {
    &&& c.id != me.id
    &&& c.route.slug == me.route.slug
    &&& c.route.operation == me.route.operation
    &&& c.route.phase != Phase::Done
}

/// Whether a live attempt may have got so far that it cannot be replaced.
pub open spec fn is_settling(other: RouteV) -> bool {
    other.finish_sent || other.phase == Phase::Querying || other.phase == Phase::Cancelling
}

/// Whether a live attempt has another manifest than a new one, or the same name.
pub open spec fn conflicts(other: RouteV, packet: PacketV) -> bool {
    ||| other.attempt == packet.attempt_id
    ||| other.intent is Some && (packet.intent is None || !same(other.intent->0, packet.intent->0))
}

/// A live attempt at the same operation stands in the way of a new one where it may
/// not be replaced, or conflicts with it; the first such attempt gives the reason.
pub proof fn law_a_live_attempt_may_stand_in_the_way(
    calls: Seq<CallV>,
    me: CallV,
    packet: PacketV,
    j: int,
)
    ensures
        (forall|k: int|
            0 <= k < calls.len() && is_rival(#[trigger] calls[k], me) ==> !is_settling(
                calls[k].route,
            ) && !conflicts(calls[k].route, packet)) <==> first_objection(calls, me, packet) is None,
        0 <= j < calls.len() && is_rival(calls[j], me) && (is_settling(calls[j].route) || conflicts(
            calls[j].route,
            packet,
        )) && (forall|k: int|
            0 <= k < j && is_rival(#[trigger] calls[k], me) ==> !is_settling(calls[k].route)
                && !conflicts(calls[k].route, packet)) ==> first_objection(calls, me, packet)
            == Some(
            if is_settling(calls[j].route) {
                "operation has an outstanding finish/status/cancel; query status"@
            } else {
                "replacement conflicts with the live intent or needs a new attempt ID"@
            },
        ),
    decreases calls.len(),
{
    if calls.len() > 0 {
        let rest = calls.drop_last();
        let n = calls.len() - 1;
        law_a_live_attempt_may_stand_in_the_way(rest, me, packet, j);
        assert forall|k: int| 0 <= k < n implies #[trigger] calls[k] == rest[k] by {}
        assert(rival(calls[n], me) == is_rival(calls[n], me));
        if first_objection(calls, me, packet) is None {
            assert forall|k: int|
                0 <= k < calls.len() && is_rival(#[trigger] calls[k], me) implies !is_settling(
                calls[k].route,
            ) && !conflicts(calls[k].route, packet) by {
                if k < n {
                    assert(is_rival(rest[k], me));
                }
            }
        }
        if forall|k: int|
            0 <= k < calls.len() && is_rival(#[trigger] calls[k], me) ==> !is_settling(
                calls[k].route,
            ) && !conflicts(calls[k].route, packet) {
            assert forall|k: int|
                0 <= k < rest.len() && is_rival(#[trigger] rest[k], me) implies !is_settling(
                rest[k].route,
            ) && !conflicts(rest[k].route, packet) by {
                assert(is_rival(calls[k], me));
            }
            assert(first_objection(rest, me, packet) is None);
        }
        if 0 <= j < n && (forall|k: int|
            0 <= k < j && is_rival(#[trigger] calls[k], me) ==> !is_settling(calls[k].route)
                && !conflicts(calls[k].route, packet)) {
            assert forall|k: int|
                0 <= k < j && is_rival(#[trigger] rest[k], me) implies !is_settling(rest[k].route)
                && !conflicts(rest[k].route, packet) by {
                assert(is_rival(calls[k], me));
            }
        }
        if j == n && (forall|k: int|
            0 <= k < j && is_rival(#[trigger] calls[k], me) ==> !is_settling(calls[k].route)
                && !conflicts(calls[k].route, packet)) {
            assert forall|k: int|
                0 <= k < rest.len() && is_rival(#[trigger] rest[k], me) implies !is_settling(
                rest[k].route,
            ) && !conflicts(rest[k].route, packet) by {
                assert(is_rival(calls[k], me));
            }
            assert(first_objection(rest, me, packet) is None);
        }
    }
}

/// The bytes that count beside a new attempt are those of the other live calls that
/// it does not replace, summed up.
pub proof fn law_the_bytes_of_others_are_summed(
    a: Seq<CallV>,
    b: Seq<CallV>,
    me: CallV,
    c: CallV,
)
    ensures
        admitted(bystanders(a + b, me)) == admitted(bystanders(a, me)) + admitted(bystanders(b, me)),
        admitted(bystanders(seq![c], me)) == if c.id == me.id || is_rival(c, me) || c.route.phase
            == Phase::Done {
            0
        } else {
            announced(c.route)
        },
        admitted(bystanders(Seq::empty(), me)) == 0,
    decreases b.len(),
{
    reveal(Seq::filter);
    assert(rival(c, me) == is_rival(c, me));
    let keep = |x: CallV| x.id != me.id && !rival(x, me);
    assert(Seq::<CallV>::empty().filter(keep) =~= Seq::<CallV>::empty());
    assert(seq![c].drop_last() =~= Seq::<CallV>::empty());
    if keep(c) {
        assert(bystanders(seq![c], me) =~= seq![c]);
        assert(admitted(Seq::<CallV>::empty()) == 0);
    } else {
        assert(bystanders(seq![c], me) =~= Seq::<CallV>::empty());
    }
    if b.len() == 0 {
        assert(a + b =~= a);
    } else {
        law_the_bytes_of_others_are_summed(a, b.drop_last(), me, c);
        assert((a + b).drop_last() =~= a + b.drop_last());
        if keep(b.last()) {
            let x = bystanders(a + b.drop_last(), me);
            let y = bystanders(b.drop_last(), me);
            assert(x.push(b.last()).drop_last() =~= x);
            assert(y.push(b.last()).drop_last() =~= y);
        }
    }
}

/// Whether the manifest of a begin is the one that its route was dispatched for.
pub open spec fn is_wanted(route: RouteV, intent: Val) -> bool {
    &&& route.destination is Some
    &&& intent.text_at("destination"@) == route.destination
    &&& route.intent is Some ==> same(route.intent->0, intent)
}

/// A begin that nothing stands in the way of is forwarded with its manifest. The
/// route starts to receive it from its first byte, and the live attempts at the
/// same operation are replaced.
pub proof fn law_a_begin_is_forwarded(
    calls: Seq<CallV>,
    client: u64,
    packet: PacketV,
    intent_fits: bool,
    writers: Seq<u64>,
    now: u64,
    i: int,
)
    requires
        belongs(calls, i, client, packet),
        now <= LAST_INSTANT,
        packet.why == "begin"@,
        first_objection(calls, calls[i], packet) is None,
        calls[i].route.phase == Phase::AwaitingBegin || (calls[i].route.phase == Phase::Ready
            && packet.attempt_id != calls[i].route.attempt),
        packet.intent is Some,
        packet.offset is None,
        packet.data is None,
        packet.place == Some("localhost"@),
        manifest_error(packet.intent->0, intent_fits) is None,
        is_wanted(calls[i].route, packet.intent->0),
        packet.intent->0.uint_at("bytes"@) matches Some(n) && admitted(
            bystanders(calls, calls[i]),
        ) + n <= 67_108_864,
        has_writer(calls[i].route, writers),
    ensures
        ({
            let was = calls[i].route;
            let step = source_step(calls, client, packet, intent_fits, writers, now);
            let is = step.calls[i].route;
            let writer = writer_of(was, writers);
            &&& step.calls.len() == calls.len()
            &&& step.calls[i].id == calls[i].id
            &&& is == (RouteV {
                writer: Some(writer),
                attempt: packet.attempt_id,
                intent: packet.intent,
                offset: 0,
                result: None,
                phase: Phase::Opening,
                sequence: (was.sequence + 1) as u64,
                deadline: (now + 30_000_000_000) as u64,
                ..was
            })
            &&& step.effects == replacements(calls, calls[i]).push(step.effects.last())
            &&& is_command(step.effects.last(), calls[i].id, is, writer, "begin"@)
            &&& has_only_fields(step.effects.last(), set!["intent"@])
            &&& step.effects.last()->Send_packet.get("intent"@) == packet.intent
            &&& forall|k: int|
                0 <= k < calls.len() && k != i && !is_rival(calls[k], calls[i])
                    ==> #[trigger] step.calls[k] == calls[k]
            &&& forall|k: int|
                0 <= k < calls.len() && is_rival(calls[k], calls[i]) ==> is_replaced(
                    calls[k],
                    #[trigger] step.calls[k],
                    now,
                )
        }),
{
    lemma_at(calls, i);
    reveal_strlit("begin");
    reveal_strlit("status");
    reveal_strlit("chunk");
    reveal_strlit("finish");
    reveal_strlit("cancel");
    reveal_strlit("what");
    reveal_strlit("why");
    reveal_strlit("binding");
    reveal_strlit("sequence");
    reveal_strlit("offset");
    reveal_strlit("data");
    reveal_strlit("intent");
    assert("begin"@.len() == 5 && "status"@.len() == 6 && "chunk"@.len() == 5
        && "finish"@.len() == 6 && "cancel"@.len() == 6 && "what"@.len() == 4
        && "why"@.len() == 3 && "binding"@.len() == 7 && "sequence"@.len() == 8
        && "offset"@.len() == 6 && "data"@.len() == 4 && "intent"@.len() == 6);
    assert("begin"@[0] != "chunk"@[0]);
    assert("status"@[0] != "finish"@[0]);
    assert("status"@[0] != "cancel"@[0]);
    assert("status"@[0] != "offset"@[0]);
    assert("status"@[0] != "intent"@[0]);
    assert("finish"@[0] != "cancel"@[0]);
    assert("finish"@[0] != "offset"@[0]);
    assert("finish"@[0] != "intent"@[0]);
    assert("cancel"@[0] != "offset"@[0]);
    assert("cancel"@[0] != "intent"@[0]);
    assert("what"@[0] != "data"@[0]);
    assert("offset"@[0] != "intent"@[0]);
    let step = source_step(calls, client, packet, intent_fits, writers, now);
    let was = calls[i].route;
    let writer = writer_of(was, writers);
    let fields = Val::empty_object().with("intent"@, packet.intent->0);
    assert(fields->Object_0.dom() =~= set!["intent"@]);
    lemma_command(calls[i].id, step.calls[i].route, writer, "begin"@, fields);
    assert(step.effects.drop_last() =~= replacements(calls, calls[i]));
    assert(step.effects =~= replacements(calls, calls[i]).push(step.effects.last()));
    assert forall|k: int|
        0 <= k < calls.len() && k != i && !is_rival(
            calls[k],
            calls[i],
        ) implies #[trigger] step.calls[k] == calls[k] by {
        assert(calls[k].id != calls[i].id);
        assert(rival(calls[k], calls[i]) == is_rival(calls[k], calls[i]));
    }
    assert forall|k: int| 0 <= k < calls.len() && is_rival(calls[k], calls[i]) implies is_replaced(
        calls[k],
        #[trigger] step.calls[k],
        now,
    ) by {
        law_a_result_is_about_its_call(
            calls[k].id,
            calls[k].route,
            "rejected"@,
            Some("temporary receive superseded by a fresh retry"@),
        );
        assert(rival(calls[k], calls[i]));
    }
}

/// Whether an attempt is over because a new one replaces it.
pub open spec fn is_replaced(was: CallV, is: CallV, now: u64) -> bool {
    &&& is.id == was.id
    &&& is.route == (RouteV {
        phase: Phase::Done,
        result: is.route.result,
        sequence: (was.route.sequence + 1) as u64,
        deadline: (now + 30_000_000_000) as u64,
        ..was.route
    })
    &&& is.route.result is Some
    &&& is_about(is.route.result->0, was.id, was.route, "rejected"@)
    &&& is.route.result->0.text_at("reason"@) == Some(
        "temporary receive superseded by a fresh retry"@,
    )
}

/// Every live attempt at the same operation is told that it was replaced, and its
/// call is completed with that; nobody else is told anything.
pub proof fn law_replaced_attempts_are_told(a: Seq<CallV>, b: Seq<CallV>, me: CallV, c: CallV)
    ensures
        replacements(a + b, me) == replacements(a, me) + replacements(b, me),
        replacements(Seq::empty(), me).len() == 0,
        ({
            let told = replacements(seq![c], me);
            if is_rival(c, me) {
                &&& told.len() == 3
                &&& told[0] matches EffectV::Send { socket, packet }
                &&& socket == c.route.source
                &&& is_about(packet, c.id, c.route, "rejected"@)
                &&& packet.text_at("reason"@) == Some(
                    "temporary receive superseded by a fresh retry"@,
                )
                &&& told[1] == (EffectV::Complete { call_id: c.id, packet })
                &&& told[2] matches EffectV::Observe(fact)
                &&& fact.text_at("why"@) == Some("temporary receive superseded by retry"@)
                &&& fact.at("with"@).text_at("call_id"@) == Some(c.id)
                &&& fact.at("with"@).text_at("replacement_call_id"@) == Some(me.id)
            } else {
                told.len() == 0
            }
        }),
    decreases b.len(),
{
    assert(rival(c, me) == is_rival(c, me));
    assert(seq![c].drop_last() =~= Seq::<CallV>::empty());
    assert(replacements(Seq::<CallV>::empty(), me) =~= Seq::<EffectV>::empty());
    law_a_result_is_about_its_call(
        c.id,
        c.route,
        "rejected"@,
        Some("temporary receive superseded by a fresh retry"@),
    );
    reveal_strlit("who");
    reveal_strlit("what");
    reveal_strlit("why");
    reveal_strlit("with");
    reveal_strlit("call_id");
    reveal_strlit("replacement_call_id");
    assert("who"@.len() == 3 && "what"@.len() == 4 && "why"@.len() == 3 && "with"@.len() == 4
        && "call_id"@.len() == 7 && "replacement_call_id"@.len() == 19);
    assert("who"@[2] != "why"@[2]);
    assert("what"@[1] != "with"@[1]);
    if rival(c, me) {
        assert(replacements(seq![c], me) =~= replacement(c, me.id));
    }
    if b.len() == 0 {
        assert(a + b =~= a);
        assert(replacements(a, me) + replacements(b, me) =~= replacements(a, me));
    } else {
        law_replaced_attempts_are_told(a, b.drop_last(), me, c);
        assert((a + b).drop_last() =~= a + b.drop_last());
        assert(replacements(a + b, me) =~= replacements(a, me) + replacements(b, me));
    }
}

/// A begin that something stands in the way of ends its route, with the reason: a
/// live attempt, its manifest, its destination, another manifest, or too many
/// bytes. Without exactly one local Wicket it ends the route too.
pub proof fn law_a_hindered_begin_ends_its_route(
    calls: Seq<CallV>,
    client: u64,
    packet: PacketV,
    intent_fits: bool,
    writers: Seq<u64>,
    now: u64,
    i: int,
)
    requires
        belongs(calls, i, client, packet),
        packet.why == "begin"@,
        calls[i].route.phase == Phase::AwaitingBegin || calls[i].route.phase == Phase::Ready,
        packet.intent is Some,
        packet.offset is None,
        packet.data is None,
        packet.place == Some("localhost"@),
    ensures
        ({
            let was = calls[i].route;
            let step = source_step(calls, client, packet, intent_fits, writers, now);
            let intent = packet.intent->0;
            let ended = |reason: Seq<char>|
                step.calls == calls.remove(i) && step.effects == ending(
                    CallV { id: calls[i].id, route: RouteV { result: None, ..was } },
                    reason,
                    true,
                );
            let objected = first_objection(calls, calls[i], packet);
            let malformed = manifest_error(intent, intent_fits);
            if objected is Some {
                ended(objected->0)
            } else if malformed is Some {
                ended(malformed->0)
            } else if was.destination is None || intent.text_at("destination"@) != was.destination {
                ended("destination differs from the dispatched save"@)
            } else if was.intent is Some && !same(was.intent->0, intent) {
                ended("operation already binds a different manifest"@)
            } else if admitted(bystanders(calls, calls[i])) + intent.uint_at("bytes"@)->0
                > 67_108_864 {
                ended("screenshot aggregate byte limit reached"@)
            } else {
                true
            }
        }),
{
    lemma_at(calls, i);
    reveal_strlit("begin");
    reveal_strlit("status");
    reveal_strlit("chunk");
    reveal_strlit("finish");
    reveal_strlit("cancel");
    assert("begin"@.len() == 5 && "status"@.len() == 6 && "chunk"@.len() == 5
        && "finish"@.len() == 6 && "cancel"@.len() == 6);
    assert("begin"@[0] != "chunk"@[0]);
    assert("status"@[0] != "finish"@[0]);
    assert("status"@[0] != "cancel"@[0]);
    assert("finish"@[0] != "cancel"@[0]);
    let next = CallV { id: calls[i].id, route: RouteV { result: None, ..calls[i].route } };
    let rerouted = calls.update(i, next);
    lemma_distinct_update(calls, i, next);
    lemma_at(rerouted, i);
    assert(rerouted.remove(i) =~= calls.remove(i));
}

/// A begin without a manifest, with other fields, for another place, or of the same
/// attempt again closes the socket of its source. The other calls stay as they are.
pub proof fn law_a_malformed_begin_is_refused(
    calls: Seq<CallV>,
    client: u64,
    packet: PacketV,
    intent_fits: bool,
    writers: Seq<u64>,
    now: u64,
    i: int,
)
    requires
        belongs(calls, i, client, packet),
        packet.why == "begin"@,
        first_objection(calls, calls[i], packet) is None,
    ensures
        ({
            let was = calls[i].route;
            let step = source_step(calls, client, packet, intent_fits, writers, now);
            let waits = was.phase == Phase::AwaitingBegin || was.phase == Phase::Ready;
            let refused = |reason: Seq<char>|
                others_stay(calls, step.calls, i) && step.calls[i].route == (RouteV {
                    result: None,
                    ..was
                }) && is_closed(step.effects, client, reason);
            &&& waits && packet.intent is None ==> refused("begin needs a PNG manifest"@)
            &&& waits && packet.intent is Some && (packet.offset is Some || packet.data is Some
                || packet.place != Some("localhost"@)) ==> refused(
                "invalid screenshot begin fields or writer location"@,
            )
            &&& was.phase == Phase::Ready && packet.attempt_id == was.attempt && packet.intent is Some
                && packet.offset is None && packet.data is None && packet.place == Some(
                "localhost"@,
            ) && manifest_error(packet.intent->0, intent_fits) is None && is_wanted(
                was,
                packet.intent->0,
            ) && admitted(bystanders(calls, calls[i])) + packet.intent->0.uint_at("bytes"@)->0
                <= 67_108_864 ==> refused("replacement requires a new attempt ID"@)
            &&& !waits ==> step.calls == calls && is_closed(
                step.effects,
                client,
                "screenshot command violates phase or one-chunk credit"@,
            )
        }),
{
    lemma_at(calls, i);
    reveal_strlit("begin");
    reveal_strlit("status");
    reveal_strlit("chunk");
    reveal_strlit("finish");
    reveal_strlit("cancel");
    assert("begin"@.len() == 5 && "status"@.len() == 6 && "chunk"@.len() == 5
        && "finish"@.len() == 6 && "cancel"@.len() == 6);
    assert("begin"@[0] != "chunk"@[0]);
    assert("status"@[0] != "finish"@[0]);
    assert("status"@[0] != "cancel"@[0]);
    assert("finish"@[0] != "cancel"@[0]);
    assert(calls.update(i, CallV { id: calls[i].id, route: calls[i].route }) =~= calls);
    lemma_violation(client, "begin needs a PNG manifest"@);
    lemma_violation(client, "invalid screenshot begin fields or writer location"@);
    lemma_violation(client, "replacement requires a new attempt ID"@);
    lemma_violation(client, "screenshot command violates phase or one-chunk credit"@);
}

/// A begin that could be forwarded, but for the lack of exactly one local Wicket,
/// ends its route.
pub proof fn law_a_begin_needs_one_wicket(
    calls: Seq<CallV>,
    client: u64,
    packet: PacketV,
    intent_fits: bool,
    writers: Seq<u64>,
    now: u64,
    i: int,
)
    requires
        belongs(calls, i, client, packet),
        packet.why == "begin"@,
        first_objection(calls, calls[i], packet) is None,
        calls[i].route.phase == Phase::AwaitingBegin,
        packet.intent is Some,
        packet.offset is None,
        packet.data is None,
        packet.place == Some("localhost"@),
        manifest_error(packet.intent->0, intent_fits) is None,
        is_wanted(calls[i].route, packet.intent->0),
        admitted(bystanders(calls, calls[i])) + packet.intent->0.uint_at("bytes"@)->0 <= 67_108_864,
        !has_writer(calls[i].route, writers),
    ensures
        ({
            let was = calls[i].route;
            let step = source_step(calls, client, packet, intent_fits, writers, now);
            &&& step.calls == calls.remove(i)
            &&& step.effects == ending(
                CallV {
                    id: calls[i].id,
                    route: RouteV {
                        attempt: packet.attempt_id,
                        intent: packet.intent,
                        offset: 0,
                        result: None,
                        ..was
                    },
                },
                "screenshot requires exactly one connected local Wicket"@,
                true,
            )
        }),
{
    lemma_at(calls, i);
    reveal_strlit("begin");
    reveal_strlit("status");
    reveal_strlit("chunk");
    reveal_strlit("finish");
    reveal_strlit("cancel");
    assert("begin"@.len() == 5 && "status"@.len() == 6 && "chunk"@.len() == 5
        && "finish"@.len() == 6 && "cancel"@.len() == 6);
    assert("begin"@[0] != "chunk"@[0]);
    assert("status"@[0] != "finish"@[0]);
    assert("status"@[0] != "cancel"@[0]);
    assert("finish"@[0] != "cancel"@[0]);
    let was = calls[i].route;
    let next = CallV {
        id: calls[i].id,
        route: RouteV {
            attempt: packet.attempt_id,
            intent: packet.intent,
            offset: 0,
            result: None,
            ..was
        },
    };
    let rerouted = calls.update(i, next);
    lemma_distinct_update(calls, i, next);
    lemma_at(rerouted, i);
    assert(rerouted.remove(i) =~= calls.remove(i));
}

// ---------------------------------------------------------------------------
// Replies of the writer
// ---------------------------------------------------------------------------

/// Whether a reply answers the outstanding command of a call: it comes from the
/// writer, carries the binding and the sequence of the command, and has no other
/// members than a reply has.
pub open spec fn replies(calls: Seq<CallV>, client: u64, data: Val, i: int) -> bool {
    &&& distinct(calls)
    &&& 0 <= i < calls.len()
    &&& data.at("binding"@).at("attempt"@).text_at("call_id"@) == Some(calls[i].id)
    &&& calls[i].route.writer == Some(client)
    &&& data.uint_at("sequence"@) == Some(calls[i].route.sequence)
    &&& calls[i].route.sequence < u64::MAX
    &&& calls[i].route.phase != Phase::Done
    &&& data.text_at("what"@) == Some("screenshot_save"@)
    &&& same(data.at("binding"@), binding_value(calls[i].id, calls[i].route))
    &&& data matches Val::Object(m)
    &&& forall|k: Seq<char>| #[trigger]
        m.contains_key(k) ==> k == "what"@ || k == "why"@ || k == "binding"@ || k == "sequence"@ || k
            == "next_offset"@ || k == "receipt"@ || k == "reason"@
}

proof fn lemma_replies(calls: Seq<CallV>, client: u64, data: Val, i: int)
    requires
        replies(calls, client, data, i),
        data.text_at("why"@) is Some,
    ensures
        reply_error(calls[i].id, calls[i].route, data) is None,
{
    let keys = reply_keys();
    let m = data->Object_0;
    assert forall|k: Seq<char>| m.dom().contains(k) implies keys.contains(k) by {
        assert(m.contains_key(k));
    }
    assert(m.dom().subset_of(keys));
}

/// Whether one packet is relayed to the source of a call, and says so much.
pub open spec fn is_relayed(
    effects: Seq<EffectV>,
    call: CallV,
    why: Seq<char>,
    packet: Val,
) -> bool {
    &&& effects.len() == 1
    &&& effects[0] == (EffectV::Send { socket: call.route.source, packet })
    &&& is_about(packet, call.id, call.route, why)
}

/// What the one packet is that is relayed.
pub open spec fn relayed(effects: Seq<EffectV>) -> Val {
    effects[0]->Send_packet
}

/// A writer that is ready for the first byte is reported, and the route takes the
/// first chunk.
pub proof fn law_a_ready_writer_is_reported(
    calls: Seq<CallV>,
    client: u64,
    data: Val,
    requested_fits: bool,
    now: u64,
    i: int,
)
    requires
        replies(calls, client, data, i),
        now <= LAST_INSTANT,
        data.text_at("why"@) == Some("ready"@),
        data.uint_at("next_offset"@) == Some(0u64),
        calls[i].route.phase == Phase::Opening,
    ensures
        ({
            let was = calls[i].route;
            let step = writer_step(calls, client, data, requested_fits, now);
            let is = step.calls[i].route;
            &&& others_stay(calls, step.calls, i)
            &&& is == (RouteV {
                phase: Phase::Ready,
                sequence: (was.sequence + 1) as u64,
                deadline: (now + 15_000_000_000) as u64,
                ..was
            })
            &&& is_relayed(step.effects, calls[i], "ready"@, relayed(step.effects))
            &&& relayed(step.effects).get("next_offset"@) == Some(Val::Unsigned(0))
        }),
{
    lemma_at(calls, i);
    reveal_strlit("ready");
    reveal_strlit("ack");
    reveal_strlit("unknown");
    reveal_strlit("receiving");
    reveal_strlit("stored");
    reveal_strlit("published");
    reveal_strlit("failed");
    reveal_strlit("aborted");
    reveal_strlit("rejected");
    reveal_strlit("unresolved");
    reveal_strlit("what");
    reveal_strlit("why");
    reveal_strlit("call_id");
    reveal_strlit("operation_id");
    reveal_strlit("attempt_id");
    reveal_strlit("reason");
    reveal_strlit("next_offset");
    reveal_strlit("receipt");
    assert("ready"@.len() == 5 && "ack"@.len() == 3 && "unknown"@.len() == 7
        && "receiving"@.len() == 9 && "stored"@.len() == 6 && "published"@.len() == 9
        && "failed"@.len() == 6 && "aborted"@.len() == 7 && "rejected"@.len() == 8
        && "unresolved"@.len() == 10 && "what"@.len() == 4 && "why"@.len() == 3
        && "call_id"@.len() == 7 && "operation_id"@.len() == 12 && "attempt_id"@.len() == 10
        && "reason"@.len() == 6 && "next_offset"@.len() == 11 && "receipt"@.len() == 7);
    assert("ack"@[0] != "why"@[0]);
    assert("unknown"@[0] != "aborted"@[0]);
    assert("unknown"@[0] != "call_id"@[0]);
    assert("unknown"@[0] != "receipt"@[0]);
    assert("receiving"@[0] != "published"@[0]);
    assert("stored"@[0] != "failed"@[0]);
    assert("stored"@[0] != "reason"@[0]);
    assert("failed"@[0] != "reason"@[0]);
    assert("aborted"@[0] != "call_id"@[0]);
    assert("aborted"@[0] != "receipt"@[0]);
    assert("unresolved"@[0] != "attempt_id"@[0]);
    assert("call_id"@[0] != "receipt"@[0]);
    lemma_replies(calls, client, data, i);
    law_a_result_is_about_its_call(calls[i].id, calls[i].route, data.text_at("why"@)->0, None);
}

/// A chunk that is acknowledged counts: the offset moves on by its bytes, the source
/// is told the new offset, and the next chunk may come.
pub proof fn law_an_acknowledged_chunk_is_reported(
    calls: Seq<CallV>,
    client: u64,
    data: Val,
    requested_fits: bool,
    now: u64,
    i: int,
)
    requires
        replies(calls, client, data, i),
        now <= LAST_INSTANT,
        data.text_at("why"@) == Some("ack"@),
        calls[i].route.phase is Chunk,
        data.uint_at("next_offset"@) == Some(calls[i].route.phase->Chunk_0),
    ensures
        ({
            let was = calls[i].route;
            let step = writer_step(calls, client, data, requested_fits, now);
            let is = step.calls[i].route;
            let end = was.phase->Chunk_0;
            &&& others_stay(calls, step.calls, i)
            &&& is == (RouteV {
                offset: end,
                phase: Phase::Ready,
                sequence: (was.sequence + 1) as u64,
                deadline: (now + 15_000_000_000) as u64,
                ..was
            })
            &&& is_relayed(step.effects, calls[i], "ack"@, relayed(step.effects))
            &&& relayed(step.effects).get("next_offset"@) == Some(Val::Unsigned(end))
        }),
{
    lemma_at(calls, i);
    reveal_strlit("ready");
    reveal_strlit("ack");
    reveal_strlit("unknown");
    reveal_strlit("receiving");
    reveal_strlit("stored");
    reveal_strlit("published");
    reveal_strlit("failed");
    reveal_strlit("aborted");
    reveal_strlit("rejected");
    reveal_strlit("unresolved");
    reveal_strlit("what");
    reveal_strlit("why");
    reveal_strlit("call_id");
    reveal_strlit("operation_id");
    reveal_strlit("attempt_id");
    reveal_strlit("reason");
    reveal_strlit("next_offset");
    reveal_strlit("receipt");
    assert("ready"@.len() == 5 && "ack"@.len() == 3 && "unknown"@.len() == 7
        && "receiving"@.len() == 9 && "stored"@.len() == 6 && "published"@.len() == 9
        && "failed"@.len() == 6 && "aborted"@.len() == 7 && "rejected"@.len() == 8
        && "unresolved"@.len() == 10 && "what"@.len() == 4 && "why"@.len() == 3
        && "call_id"@.len() == 7 && "operation_id"@.len() == 12 && "attempt_id"@.len() == 10
        && "reason"@.len() == 6 && "next_offset"@.len() == 11 && "receipt"@.len() == 7);
    assert("ack"@[0] != "why"@[0]);
    assert("unknown"@[0] != "aborted"@[0]);
    assert("unknown"@[0] != "call_id"@[0]);
    assert("unknown"@[0] != "receipt"@[0]);
    assert("receiving"@[0] != "published"@[0]);
    assert("stored"@[0] != "failed"@[0]);
    assert("stored"@[0] != "reason"@[0]);
    assert("failed"@[0] != "reason"@[0]);
    assert("aborted"@[0] != "call_id"@[0]);
    assert("aborted"@[0] != "receipt"@[0]);
    assert("unresolved"@[0] != "attempt_id"@[0]);
    assert("call_id"@[0] != "receipt"@[0]);
    lemma_replies(calls, client, data, i);
    law_a_result_is_about_its_call(calls[i].id, calls[i].route, data.text_at("why"@)->0, None);
}

/// What the writer knows of an operation is reported, kept as the outcome so far,
/// and the route waits for a begin again. A receive is reported with its offset.
pub proof fn law_a_status_is_reported(
    calls: Seq<CallV>,
    client: u64,
    data: Val,
    requested_fits: bool,
    now: u64,
    i: int,
)
    requires
        replies(calls, client, data, i),
        now <= LAST_INSTANT,
        data.text_at("why"@) == Some("unknown"@) || (data.text_at("why"@) == Some("receiving"@) && (
        data.uint_at("next_offset"@) matches Some(n) && n <= 33_554_432)),
        calls[i].route.phase == Phase::Querying,
    ensures
        ({
            let was = calls[i].route;
            let step = writer_step(calls, client, data, requested_fits, now);
            let is = step.calls[i].route;
            let why = data.text_at("why"@)->0;
            &&& others_stay(calls, step.calls, i)
            &&& is == (RouteV {
                phase: Phase::AwaitingBegin,
                result: Some(relayed(step.effects)),
                sequence: (was.sequence + 1) as u64,
                deadline: (now + 30_000_000_000) as u64,
                ..was
            })
            &&& is_relayed(step.effects, calls[i], why, relayed(step.effects))
            &&& relayed(step.effects).get("next_offset"@) == if why == "receiving"@ {
                Some(Val::Unsigned(data.uint_at("next_offset"@)->0))
            } else {
                None
            }
        }),
{
    lemma_at(calls, i);
    reveal_strlit("ready");
    reveal_strlit("ack");
    reveal_strlit("unknown");
    reveal_strlit("receiving");
    reveal_strlit("stored");
    reveal_strlit("published");
    reveal_strlit("failed");
    reveal_strlit("aborted");
    reveal_strlit("rejected");
    reveal_strlit("unresolved");
    reveal_strlit("what");
    reveal_strlit("why");
    reveal_strlit("call_id");
    reveal_strlit("operation_id");
    reveal_strlit("attempt_id");
    reveal_strlit("reason");
    reveal_strlit("next_offset");
    reveal_strlit("receipt");
    assert("ready"@.len() == 5 && "ack"@.len() == 3 && "unknown"@.len() == 7
        && "receiving"@.len() == 9 && "stored"@.len() == 6 && "published"@.len() == 9
        && "failed"@.len() == 6 && "aborted"@.len() == 7 && "rejected"@.len() == 8
        && "unresolved"@.len() == 10 && "what"@.len() == 4 && "why"@.len() == 3
        && "call_id"@.len() == 7 && "operation_id"@.len() == 12 && "attempt_id"@.len() == 10
        && "reason"@.len() == 6 && "next_offset"@.len() == 11 && "receipt"@.len() == 7);
    assert("ack"@[0] != "why"@[0]);
    assert("unknown"@[0] != "aborted"@[0]);
    assert("unknown"@[0] != "call_id"@[0]);
    assert("unknown"@[0] != "receipt"@[0]);
    assert("receiving"@[0] != "published"@[0]);
    assert("stored"@[0] != "failed"@[0]);
    assert("stored"@[0] != "reason"@[0]);
    assert("failed"@[0] != "reason"@[0]);
    assert("aborted"@[0] != "call_id"@[0]);
    assert("aborted"@[0] != "receipt"@[0]);
    assert("unresolved"@[0] != "attempt_id"@[0]);
    assert("call_id"@[0] != "receipt"@[0]);
    lemma_replies(calls, client, data, i);
    law_a_result_is_about_its_call(calls[i].id, calls[i].route, data.text_at("why"@)->0, None);
}

/// An outcome with a receipt that belongs to the operation is reported with that
/// receipt, kept, and the route is over.
pub proof fn law_an_outcome_is_reported_with_its_receipt(
    calls: Seq<CallV>,
    client: u64,
    data: Val,
    requested_fits: bool,
    now: u64,
    i: int,
)
    requires
        replies(calls, client, data, i),
        now <= LAST_INSTANT,
        data.text_at("why"@) == Some("stored"@) || data.text_at("why"@) == Some("published"@)
            || data.text_at("why"@) == Some("failed"@) || data.text_at("why"@) == Some("aborted"@),
        calls[i].route.phase == Phase::Opening || calls[i].route.phase == Phase::Querying
            || calls[i].route.phase == Phase::Finishing || calls[i].route.phase
            == Phase::Cancelling || calls[i].route.phase is Chunk,
        receipt_ok(
            data.at("receipt"@),
            data.text_at("why"@)->0,
            calls[i].route.slug,
            calls[i].route.operation,
            calls[i].route.intent,
            calls[i].route.destination,
            requested_fits,
        ),
    ensures
        ({
            let was = calls[i].route;
            let step = writer_step(calls, client, data, requested_fits, now);
            let is = step.calls[i].route;
            &&& others_stay(calls, step.calls, i)
            &&& is == (RouteV {
                phase: Phase::Done,
                result: Some(relayed(step.effects)),
                sequence: (was.sequence + 1) as u64,
                deadline: (now + 30_000_000_000) as u64,
                ..was
            })
            &&& is_relayed(
                step.effects,
                calls[i],
                data.text_at("why"@)->0,
                relayed(step.effects),
            )
            &&& relayed(step.effects).get("receipt"@) == Some(data.at("receipt"@))
        }),
{
    lemma_at(calls, i);
    reveal_strlit("ready");
    reveal_strlit("ack");
    reveal_strlit("unknown");
    reveal_strlit("receiving");
    reveal_strlit("stored");
    reveal_strlit("published");
    reveal_strlit("failed");
    reveal_strlit("aborted");
    reveal_strlit("rejected");
    reveal_strlit("unresolved");
    reveal_strlit("what");
    reveal_strlit("why");
    reveal_strlit("call_id");
    reveal_strlit("operation_id");
    reveal_strlit("attempt_id");
    reveal_strlit("reason");
    reveal_strlit("next_offset");
    reveal_strlit("receipt");
    assert("ready"@.len() == 5 && "ack"@.len() == 3 && "unknown"@.len() == 7
        && "receiving"@.len() == 9 && "stored"@.len() == 6 && "published"@.len() == 9
        && "failed"@.len() == 6 && "aborted"@.len() == 7 && "rejected"@.len() == 8
        && "unresolved"@.len() == 10 && "what"@.len() == 4 && "why"@.len() == 3
        && "call_id"@.len() == 7 && "operation_id"@.len() == 12 && "attempt_id"@.len() == 10
        && "reason"@.len() == 6 && "next_offset"@.len() == 11 && "receipt"@.len() == 7);
    assert("ack"@[0] != "why"@[0]);
    assert("unknown"@[0] != "aborted"@[0]);
    assert("unknown"@[0] != "call_id"@[0]);
    assert("unknown"@[0] != "receipt"@[0]);
    assert("receiving"@[0] != "published"@[0]);
    assert("stored"@[0] != "failed"@[0]);
    assert("stored"@[0] != "reason"@[0]);
    assert("failed"@[0] != "reason"@[0]);
    assert("aborted"@[0] != "call_id"@[0]);
    assert("aborted"@[0] != "receipt"@[0]);
    assert("unresolved"@[0] != "attempt_id"@[0]);
    assert("call_id"@[0] != "receipt"@[0]);
    lemma_replies(calls, client, data, i);
    law_a_result_is_about_its_call(calls[i].id, calls[i].route, data.text_at("why"@)->0, None);
}

/// A refusal of the writer ends the route. Once a finish was forwarded it leaves the
/// outcome unresolved; before that it is what the writer says. What the writer gives
/// as its reason is not repeated.
pub proof fn law_a_refusal_is_reported(
    calls: Seq<CallV>,
    client: u64,
    data: Val,
    requested_fits: bool,
    now: u64,
    i: int,
)
    requires
        replies(calls, client, data, i),
        now <= LAST_INSTANT,
        data.text_at("why"@) == Some("rejected"@) || data.text_at("why"@) == Some("unresolved"@),
    ensures
        ({
            let was = calls[i].route;
            let step = writer_step(calls, client, data, requested_fits, now);
            let is = step.calls[i].route;
            let why = data.text_at("why"@)->0;
            &&& others_stay(calls, step.calls, i)
            &&& is == (RouteV {
                phase: Phase::Done,
                result: Some(relayed(step.effects)),
                sequence: (was.sequence + 1) as u64,
                deadline: (now + 30_000_000_000) as u64,
                ..was
            })
            &&& is_relayed(
                step.effects,
                calls[i],
                if was.finish_sent {
                    "unresolved"@
                } else {
                    why
                },
                relayed(step.effects),
            )
            &&& relayed(step.effects).text_at("reason"@) == Some(
                if why == "rejected"@ {
                    "Wicket refused the screenshot command"@
                } else {
                    "Wicket could not establish a terminal outcome; reconcile by operation ID"@
                },
            )
        }),
{
    lemma_at(calls, i);
    reveal_strlit("ready");
    reveal_strlit("ack");
    reveal_strlit("unknown");
    reveal_strlit("receiving");
    reveal_strlit("stored");
    reveal_strlit("published");
    reveal_strlit("failed");
    reveal_strlit("aborted");
    reveal_strlit("rejected");
    reveal_strlit("unresolved");
    reveal_strlit("what");
    reveal_strlit("why");
    reveal_strlit("call_id");
    reveal_strlit("operation_id");
    reveal_strlit("attempt_id");
    reveal_strlit("reason");
    reveal_strlit("next_offset");
    reveal_strlit("receipt");
    assert("ready"@.len() == 5 && "ack"@.len() == 3 && "unknown"@.len() == 7
        && "receiving"@.len() == 9 && "stored"@.len() == 6 && "published"@.len() == 9
        && "failed"@.len() == 6 && "aborted"@.len() == 7 && "rejected"@.len() == 8
        && "unresolved"@.len() == 10 && "what"@.len() == 4 && "why"@.len() == 3
        && "call_id"@.len() == 7 && "operation_id"@.len() == 12 && "attempt_id"@.len() == 10
        && "reason"@.len() == 6 && "next_offset"@.len() == 11 && "receipt"@.len() == 7);
    assert("ack"@[0] != "why"@[0]);
    assert("unknown"@[0] != "aborted"@[0]);
    assert("unknown"@[0] != "call_id"@[0]);
    assert("unknown"@[0] != "receipt"@[0]);
    assert("receiving"@[0] != "published"@[0]);
    assert("stored"@[0] != "failed"@[0]);
    assert("stored"@[0] != "reason"@[0]);
    assert("failed"@[0] != "reason"@[0]);
    assert("aborted"@[0] != "call_id"@[0]);
    assert("aborted"@[0] != "receipt"@[0]);
    assert("unresolved"@[0] != "attempt_id"@[0]);
    assert("call_id"@[0] != "receipt"@[0]);
    lemma_replies(calls, client, data, i);
    law_a_result_is_about_its_call(calls[i].id, calls[i].route, data.text_at("why"@)->0, None);
    law_a_result_is_about_its_call(calls[i].id, calls[i].route, "unresolved"@, None);
}

/// A reply that does not fit the phase of its route closes the socket of the
/// writer: an acknowledgement of other bytes or of none, an offset past every
/// picture, an outcome without the receipt of the operation, and every reply that
/// the outstanding command does not have. The other calls stay as they are.
pub proof fn law_a_wrong_reply_is_refused(
    calls: Seq<CallV>,
    client: u64,
    data: Val,
    requested_fits: bool,
    now: u64,
    i: int,
)
    requires
        replies(calls, client, data, i),
        now <= LAST_INSTANT,
        data.text_at("why"@) is Some,
    ensures
        ({
            let was = calls[i].route;
            let step = writer_step(calls, client, data, requested_fits, now);
            let is = step.calls[i].route;
            let why = data.text_at("why"@)->0;
            let answers = was.phase == Phase::Opening || was.phase == Phase::Querying || was.phase
                == Phase::Finishing || was.phase == Phase::Cancelling || was.phase is Chunk;
            let terminal = why == "stored"@ || why == "published"@ || why == "failed"@ || why
                == "aborted"@;
            let refused = |reason: Seq<char>|
                step.calls == calls && is_closed(step.effects, client, reason);
            &&& why == "ack"@ && was.phase is Chunk && data.uint_at("next_offset"@) != Some(
                was.phase->Chunk_0,
            ) ==> refused("ack offset differs from forwarded chunk"@)
            &&& why == "ack"@ && was.phase !is Chunk ==> refused("ack has no outstanding chunk"@)
            &&& why == "receiving"@ && was.phase == Phase::Querying && !(data.uint_at(
                "next_offset"@,
            ) matches Some(n) && n <= 33_554_432) ==> others_stay(calls, step.calls, i) && is == (
            RouteV { phase: Phase::AwaitingBegin, ..was }) && is_closed(
                step.effects,
                client,
                "invalid receiving offset"@,
            )
            &&& terminal && !(answers && receipt_ok(
                data.at("receipt"@),
                why,
                was.slug,
                was.operation,
                was.intent,
                was.destination,
                requested_fits,
            )) ==> refused("writer terminal receipt does not match the operation"@)
            &&& !terminal && why != "ack"@ && why != "rejected"@ && why != "unresolved"@ && !(why
                == "ready"@ && was.phase == Phase::Opening && data.uint_at("next_offset"@) == Some(
                0u64,
            )) && !((why == "unknown"@ || why == "receiving"@) && was.phase == Phase::Querying)
                ==> refused("writer reply violates screenshot phase"@)
        }),
{
    lemma_at(calls, i);
    reveal_strlit("ready");
    reveal_strlit("ack");
    reveal_strlit("unknown");
    reveal_strlit("receiving");
    reveal_strlit("stored");
    reveal_strlit("published");
    reveal_strlit("failed");
    reveal_strlit("aborted");
    reveal_strlit("rejected");
    reveal_strlit("unresolved");
    assert("ready"@.len() == 5 && "ack"@.len() == 3 && "unknown"@.len() == 7
        && "receiving"@.len() == 9 && "stored"@.len() == 6 && "published"@.len() == 9
        && "failed"@.len() == 6 && "aborted"@.len() == 7 && "rejected"@.len() == 8
        && "unresolved"@.len() == 10);
    assert("unknown"@[0] != "aborted"@[0]);
    assert("receiving"@[0] != "published"@[0]);
    assert("stored"@[0] != "failed"@[0]);
    lemma_replies(calls, client, data, i);
    assert(calls.update(i, CallV { id: calls[i].id, route: calls[i].route }) =~= calls);
    lemma_violation(client, "ack offset differs from forwarded chunk"@);
    lemma_violation(client, "ack has no outstanding chunk"@);
    lemma_violation(client, "invalid receiving offset"@);
    lemma_violation(client, "writer terminal receipt does not match the operation"@);
    lemma_violation(client, "writer reply violates screenshot phase"@);
}

/// A reply that is not bound to the outstanding command closes the socket that it
/// comes from, with the reason; one of an earlier command, or about a call that is
/// over, has no effect. Nothing changes.
pub proof fn law_an_unbound_reply_is_refused(
    calls: Seq<CallV>,
    client: u64,
    data: Val,
    requested_fits: bool,
    now: u64,
    i: int,
)
    requires
        distinct(calls),
    ensures
        ({
            let step = writer_step(calls, client, data, requested_fits, now);
            let named = data.at("binding"@).at("attempt"@).text_at("call_id"@);
            let mine = 0 <= i < calls.len() && named == Some(calls[i].id);
            let was = calls[i].route;
            let refused = |reason: Seq<char>|
                step.calls == calls && is_closed(step.effects, client, reason);
            let from_writer = mine && was.writer == Some(client);
            let number = data.uint_at("sequence"@);
            let bound = data.text_at("what"@) == Some("screenshot_save"@) && same(
                data.at("binding"@),
                binding_value(calls[i].id, was),
            );
            &&& named is None ==> refused("writer reply lacks call binding"@)
            &&& mine && was.writer != Some(client) ==> refused(
                "reply is not from the selected writer"@,
            )
            &&& from_writer && number is None ==> refused("writer reply lacks sequence"@)
            &&& from_writer && number is Some && number->0 < was.sequence ==> step.calls == calls
                && step.effects.len() == 0
            &&& from_writer && number is Some && number->0 >= was.sequence && !bound ==> refused(
                "reply attempt binding differs"@,
            )
            &&& from_writer && number is Some && bound && (number->0 > was.sequence || (number->0
                == was.sequence && was.phase == Phase::Done)) ==> refused(
                "writer reply has no outstanding command"@,
            )
            &&& replies(calls, client, data, i) && data.text_at("why"@) is None ==> refused(
                "writer reply lacks disposition"@,
            )
            &&& from_writer && number == Some(was.sequence) && was.phase != Phase::Done && bound && (
            exists|k: Seq<char>| #[trigger]
                data.get(k) is Some && k != "what"@ && k != "why"@ && k != "binding"@ && k
                    != "sequence"@ && k != "next_offset"@ && k != "receipt"@ && k != "reason"@)
                ==> refused("writer reply has unexpected fields"@)
            &&& named is Some && (forall|k: int|
                0 <= k < calls.len() ==> (#[trigger] calls[k]).id != named->0) ==> step.calls
                == calls && step.effects.len() == 0
        }),
{
    if 0 <= i < calls.len() {
        lemma_at(calls, i);
    }
    lemma_violation(client, "writer reply lacks call binding"@);
    lemma_violation(client, "reply is not from the selected writer"@);
    lemma_violation(client, "writer reply lacks sequence"@);
    lemma_violation(client, "reply attempt binding differs"@);
    lemma_violation(client, "writer reply has no outstanding command"@);
    lemma_violation(client, "writer reply lacks disposition"@);
    lemma_violation(client, "writer reply has unexpected fields"@);
    let keys = reply_keys();
    if replies(calls, client, data, i) {
        let m = data->Object_0;
        assert forall|k: Seq<char>| m.dom().contains(k) implies keys.contains(k) by {
            assert(m.contains_key(k));
        }
        assert(m.dom().subset_of(keys));
    }
    if exists|k: Seq<char>| #[trigger]
        data.get(k) is Some && k != "what"@ && k != "why"@ && k != "binding"@ && k != "sequence"@ && k
            != "next_offset"@ && k != "receipt"@ && k != "reason"@ {
        let k = choose|k: Seq<char>| #[trigger]
            data.get(k) is Some && k != "what"@ && k != "why"@ && k != "binding"@ && k
                != "sequence"@ && k != "next_offset"@ && k != "receipt"@ && k != "reason"@;
        assert(data->Object_0.dom().contains(k));
        assert(!keys.contains(k));
    }
}

// ---------------------------------------------------------------------------
// Dispatching, ending and time
// ---------------------------------------------------------------------------

/// A dispatched save is routed exactly where it is one, names its operation, every
/// identity is valid, and fewer than four calls are routed; else the first of these
/// that it lacks is the reason.
pub proof fn law_a_save_is_admitted(calls: Seq<CallV>, id: Seq<char>, slug: Seq<char>, args: Val)
    ensures
        ({
            let operation = args.at("args"@).text_at("operation_id"@);
            let saves = args.text_at("who"@) == Some("shotgun"@) && args.text_at("f"@) == Some(
                "screenshot_save"@,
            );
            let valid = id_ok(id) && id_ok(slug) && operation is Some && id_ok(operation->0);
            register_error(calls, id, slug, args) == if !saves {
                Some("not a Shotgun screenshot_save call"@)
            } else if operation is None {
                Some("screenshot_save requires a caller-known operation_id"@)
            } else if !valid {
                Some("invalid screenshot operation identity"@)
            } else if calls.len() >= 4 {
                Some("screenshot route capacity reached"@)
            } else {
                None
            }
        }),
{
}

/// A routed save starts afresh: it waits for a begin for 30 seconds, for its own
/// operation and destination, without a writer. It takes the place of an earlier
/// call of its name, and the other calls stay.
pub proof fn law_a_save_starts_afresh(
    calls: Seq<CallV>,
    id: Seq<char>,
    source: u64,
    slug: Seq<char>,
    args: Val,
    now: u64,
    i: int,
)
    requires
        distinct(calls),
        now <= LAST_INSTANT,
        args.at("args"@).text_at("operation_id"@) is Some,
    ensures
        ({
            let after = registered(calls, id, source, slug, args, now);
            let new = CallV {
                id,
                route: RouteV {
                    source,
                    writer: None,
                    slug,
                    operation: args.at("args"@).text_at("operation_id"@)->0,
                    destination: args.at("args"@).text_at("destination"@),
                    attempt: Seq::empty(),
                    intent: None,
                    phase: Phase::AwaitingBegin,
                    offset: 0,
                    finish_sent: false,
                    sequence: 0,
                    deadline: (now + 30_000_000_000) as u64,
                    result: None,
                },
            };
            &&& 0 <= i < calls.len() && calls[i].id == id ==> after == calls.update(i, new)
            &&& (forall|k: int| 0 <= k < calls.len() ==> (#[trigger] calls[k]).id != id) ==> after
                == calls.push(new)
        }),
{
    if 0 <= i < calls.len() {
        lemma_at(calls, i);
    }
}

/// The packet with which a route ends: the outcome that is known, or else that the
/// save was rejected, or unresolved where a finish was forwarded or a status is
/// asked for.
pub open spec fn is_last_word(packet: Val, call: CallV, reason: Seq<char>) -> bool {
    match call.route.result {
        Some(known) => packet == known,
        None => {
            &&& is_about(
                packet,
                call.id,
                call.route,
                if call.route.finish_sent || call.route.phase == Phase::Querying {
                    "unresolved"@
                } else {
                    "rejected"@
                },
            )
            &&& packet.text_at("reason"@) == Some(reason)
        },
    }
}

/// Whether a fact records the end of a route.
pub open spec fn records_the_end(fact: Val, call: CallV, reason: Seq<char>, packet: Val) -> bool {
    &&& fact.text_at("who"@) == Some("screenshot"@)
    &&& fact.text_at("what"@) == Some("reject_route"@)
    &&& fact.text_at("why"@) == Some(reason)
    &&& fact.text_at("how"@) == Some("websocket"@)
    &&& fact.at("with"@).text_at("call_id"@) == Some(call.id)
    &&& fact.at("with"@).text_at("operation_id"@) == Some(call.route.operation)
    &&& fact.at("with"@).uint_at("source_socket"@) == Some(call.route.source)
    &&& fact.at("with"@).get("writer_socket"@) == Some(
        match call.route.writer {
            Some(w) => Val::Unsigned(w),
            None => Val::Null,
        },
    )
    &&& fact.at("with"@).at("disposition"@) == packet.at("why"@)
}

/// The end of a route, effect by effect: the writer of a receive without an outcome
/// is asked to cancel it, the end is recorded, the source is told where it is to be,
/// and the call is completed, both with the same last word.
pub proof fn law_a_route_ends_step_by_step(call: CallV, reason: Seq<char>, relay: bool)
    requires
        call.route.sequence < u64::MAX,
    ensures
        ({
            let effects = ending(call, reason, relay);
            let n = effects.len() as int;
            let route = call.route;
            let cancels = route.writer is Some && route.result is None && route.attempt.len() > 0
                && route.phase != Phase::Querying && route.phase != Phase::AwaitingBegin;
            let next = RouteV { sequence: (route.sequence + 1) as u64, ..route };
            &&& n == 2 + (if cancels {
                1int
            } else {
                0int
            }) + (if relay {
                1int
            } else {
                0int
            })
            &&& cancels ==> is_command(effects[0], call.id, next, route.writer->0, "cancel"@)
                && has_only_fields(effects[0], set![])
            &&& effects[n - 1] matches EffectV::Complete { call_id, packet }
            &&& call_id == call.id
            &&& is_last_word(packet, call, reason)
            &&& relay ==> effects[n - 2] == (EffectV::Send { socket: route.source, packet })
            &&& effects[if cancels {
                1int
            } else {
                0int
            }] matches EffectV::Observe(fact)
            &&& records_the_end(fact, call, reason, packet)
        }),
{
    let route = call.route;
    reveal_strlit("who");
    reveal_strlit("what");
    reveal_strlit("why");
    reveal_strlit("how");
    reveal_strlit("with");
    reveal_strlit("call_id");
    reveal_strlit("operation_id");
    reveal_strlit("source_socket");
    reveal_strlit("writer_socket");
    reveal_strlit("disposition");
    assert("who"@.len() == 3 && "what"@.len() == 4 && "why"@.len() == 3 && "how"@.len() == 3
        && "with"@.len() == 4 && "call_id"@.len() == 7 && "operation_id"@.len() == 12
        && "source_socket"@.len() == 13 && "writer_socket"@.len() == 13
        && "disposition"@.len() == 11);
    assert("who"@[2] != "why"@[2]);
    assert("who"@[0] != "how"@[0]);
    assert("what"@[1] != "with"@[1]);
    assert("why"@[0] != "how"@[0]);
    assert("source_socket"@[0] != "writer_socket"@[0]);
    law_a_result_is_about_its_call(call.id, route, "unresolved"@, Some(reason));
    law_a_result_is_about_its_call(call.id, route, "rejected"@, Some(reason));
    if route.writer is Some {
        let next = RouteV { sequence: (route.sequence + 1) as u64, ..route };
        lemma_command(call.id, next, route.writer->0, "cancel"@, Val::empty_object());
        assert(Val::empty_object()->Object_0.dom() =~= set![]);
    }
}

/// Ending the route of a call takes out that call, and only that; a call that is not
/// routed has nothing to end.
pub proof fn law_only_the_named_route_ends(
    calls: Seq<CallV>,
    id: Seq<char>,
    reason: Seq<char>,
    relay: bool,
    i: int,
)
    requires
        distinct(calls),
    ensures
        0 <= i < calls.len() && calls[i].id == id ==> end_step(calls, id, reason, relay).calls
            == calls.remove(i) && end_step(calls, id, reason, relay).effects == ending(
            calls[i],
            reason,
            relay,
        ) && removed(calls, id) == calls.remove(i),
        (forall|k: int| 0 <= k < calls.len() ==> (#[trigger] calls[k]).id != id) ==> end_step(
            calls,
            id,
            reason,
            relay,
        ).calls == calls && end_step(calls, id, reason, relay).effects.len() == 0 && removed(
            calls,
            id,
        ) == calls,
        routed(calls, id) <==> exists|k: int|
            0 <= k < calls.len() && (#[trigger] calls[k]).id == id,
{
    if 0 <= i < calls.len() {
        lemma_at(calls, i);
    }
}

proof fn lemma_one_kept(c: CallV, keep: spec_fn(CallV) -> bool)
    ensures
        seq![c].filter(keep) == if keep(c) {
            seq![c]
        } else {
            Seq::empty()
        },
        Seq::<CallV>::empty().filter(keep) == Seq::<CallV>::empty(),
{
    reveal(Seq::filter);
    assert(Seq::<CallV>::empty().filter(keep) =~= Seq::<CallV>::empty());
    assert(seq![c].drop_last() =~= Seq::<CallV>::empty());
    assert(seq![c].filter(keep) =~= if keep(c) {
        seq![c]
    } else {
        Seq::empty()
    });
}

proof fn lemma_kept_of_both(a: Seq<CallV>, b: Seq<CallV>, keep: spec_fn(CallV) -> bool)
    ensures
        (a + b).filter(keep) == a.filter(keep) + b.filter(keep),
    decreases b.len(),
{
    reveal(Seq::filter);
    if b.len() == 0 {
        assert(a + b =~= a);
        assert(a.filter(keep) + b.filter(keep) =~= a.filter(keep));
    } else {
        lemma_kept_of_both(a, b.drop_last(), keep);
        assert((a + b).drop_last() =~= a + b.drop_last());
        assert((a + b).filter(keep) =~= a.filter(keep) + b.filter(keep));
    }
}

proof fn lemma_endings(a: Seq<CallV>, b: Seq<CallV>, reason: Seq<char>)
    ensures
        endings(a + b, reason) == endings(a, reason) + endings(b, reason),
    decreases b.len(),
{
    if b.len() == 0 {
        assert(a + b =~= a);
        assert(endings(a, reason) + endings(b, reason) =~= endings(a, reason));
    } else {
        lemma_endings(a, b.drop_last(), reason);
        assert((a + b).drop_last() =~= a + b.drop_last());
        assert(endings(a + b, reason) =~= endings(a, reason) + endings(b, reason));
    }
}

proof fn lemma_one_ending(c: CallV, reason: Seq<char>)
    ensures
        endings(seq![c], reason) == ending(c, reason, true),
        endings(Seq::empty(), reason).len() == 0,
{
    assert(seq![c].drop_last() =~= Seq::<CallV>::empty());
    assert(endings(Seq::<CallV>::empty(), reason) =~= Seq::<EffectV>::empty());
    assert(endings(seq![c], reason) =~= ending(c, reason, true));
}

/// A socket that is gone ends the routes of which it is the source or the writer,
/// each at its turn; every other route stays.
pub proof fn law_a_lost_socket_ends_its_routes(
    a: Seq<CallV>,
    b: Seq<CallV>,
    c: CallV,
    client: u64,
)
    ensures
        disconnect_step(a + b, client).calls == disconnect_step(a, client).calls + disconnect_step(
            b,
            client,
        ).calls,
        disconnect_step(a + b, client).effects == disconnect_step(a, client).effects
            + disconnect_step(b, client).effects,
        disconnect_step(Seq::empty(), client).calls.len() == 0,
        disconnect_step(Seq::empty(), client).effects.len() == 0,
        ({
            let step = disconnect_step(seq![c], client);
            if c.route.source == client || c.route.writer == Some(client) {
                step.calls.len() == 0 && step.effects == ending(
                    c,
                    "screenshot route endpoint disconnected"@,
                    true,
                )
            } else {
                step.calls == seq![c] && step.effects.len() == 0
            }
        }),
{
    let gone = |x: CallV| uses(x, client);
    let stays = |x: CallV| !uses(x, client);
    let reason = "screenshot route endpoint disconnected"@;
    lemma_one_kept(c, gone);
    lemma_one_kept(c, stays);
    lemma_kept_of_both(a, b, gone);
    lemma_kept_of_both(a, b, stays);
    lemma_endings(a.filter(gone), b.filter(gone), reason);
    lemma_one_ending(c, reason);
}

/// The routes whose deadline has come end, each at its turn; every other route
/// stays.
pub proof fn law_a_passed_deadline_ends_its_route(
    a: Seq<CallV>,
    b: Seq<CallV>,
    c: CallV,
    now: u64,
)
    ensures
        expire_step(a + b, now).calls == expire_step(a, now).calls + expire_step(b, now).calls,
        expire_step(a + b, now).effects == expire_step(a, now).effects + expire_step(
            b,
            now,
        ).effects,
        expire_step(Seq::empty(), now).calls.len() == 0,
        expire_step(Seq::empty(), now).effects.len() == 0,
        ({
            let step = expire_step(seq![c], now);
            if c.route.deadline <= now {
                step.calls.len() == 0 && step.effects == ending(
                    c,
                    "screenshot route deadline elapsed"@,
                    true,
                )
            } else {
                step.calls == seq![c] && step.effects.len() == 0
            }
        }),
{
    let gone = |x: CallV| x.route.deadline <= now;
    let stays = |x: CallV| x.route.deadline > now;
    let reason = "screenshot route deadline elapsed"@;
    lemma_one_kept(c, gone);
    lemma_one_kept(c, stays);
    lemma_kept_of_both(a, b, gone);
    lemma_kept_of_both(a, b, stays);
    lemma_endings(a.filter(gone), b.filter(gone), reason);
    lemma_one_ending(c, reason);
}

/// A timer ends the route that it was set for, where that has not moved on and its
/// deadline has come; else it does nothing.
pub proof fn law_a_timer_ends_its_own_route(
    calls: Seq<CallV>,
    i: int,
    generation: u64,
    now: u64,
)
    requires
        distinct(calls),
        0 <= i < calls.len(),
    ensures
        ({
            let step = timeout_step(calls, calls[i].id, generation, now);
            if calls[i].route.sequence == generation && calls[i].route.deadline <= now {
                step.calls == calls.remove(i) && step.effects == ending(
                    calls[i],
                    "screenshot route deadline elapsed"@,
                    true,
                )
            } else {
                step.calls == calls && step.effects.len() == 0
            }
        }),
{
    lemma_at(calls, i);
}

/// The response of a tool is taken exactly where it holds the packet that was
/// relayed as the outcome; else the reason says what is wrong.
pub proof fn law_a_response_has_to_be_the_relayed_packet(
    calls: Seq<CallV>,
    i: int,
    output: Option<Val>,
)
    requires
        distinct(calls),
        0 <= i < calls.len(),
    ensures
        tool_error(calls, calls[i].id, output) == match calls[i].route.result {
            None => Some("no writer outcome has been received"@),
            Some(known) => match output {
                Some(v) => if same(v, known) {
                    None
                } else {
                    Some("tool response differs from the writer outcome"@)
                },
                None => Some("tool response differs from the writer outcome"@),
            },
        },
{
    lemma_at(calls, i);
}

/// The response of a tool is read within the limit of a packet.
pub proof fn law_a_response_is_read_within_the_limit(output: Seq<char>)
    ensures
        byte_len(output) <= 98_304 ==> held_output(output) == parsed(output),
        byte_len(output) > 98_304 ==> held_output(output) is None,
{
}

/// The latest generation is that of the route that has moved on the most.
pub proof fn law_the_latest_generation_is_the_highest(calls: Seq<CallV>, i: int)
    ensures
        0 <= i < calls.len() ==> calls[i].route.sequence <= generation(calls),
        calls.len() == 0 ==> generation(calls) == 0,
        calls.len() > 0 ==> exists|k: int|
            0 <= k < calls.len() && (#[trigger] calls[k]).route.sequence == generation(calls),
    decreases calls.len(),
{
    if 0 <= i < calls.len() {
        lemma_generation(calls, i);
    }
    if calls.len() > 0 {
        let rest = calls.drop_last();
        law_the_latest_generation_is_the_highest(rest, 0);
        if generation(rest) < calls.last().route.sequence {
            assert(calls[calls.len() - 1].route.sequence == generation(calls));
        } else if rest.len() > 0 {
            let k = choose|k: int|
                0 <= k < rest.len() && (#[trigger] rest[k]).route.sequence == generation(rest);
            assert(calls[k].route.sequence == generation(calls));
        } else {
            assert(calls[calls.len() - 1].route.sequence == generation(calls));
        }
    }
}

/// A begin at a route that does not wait for one ends the route where a live attempt
/// stands in its way; a route that is over takes no other command.
pub proof fn law_a_late_begin_may_end_its_route(
    calls: Seq<CallV>,
    client: u64,
    packet: PacketV,
    intent_fits: bool,
    writers: Seq<u64>,
    now: u64,
    i: int,
)
    requires
        distinct(calls),
        0 <= i < calls.len(),
        packet.call_id == calls[i].id,
        packet.what == "screenshot_save"@,
        packet.operation_id == calls[i].route.operation,
        id_ok(packet.attempt_id),
        client == calls[i].route.source,
        calls[i].route.phase != Phase::AwaitingBegin,
        calls[i].route.phase != Phase::Ready,
    ensures
        ({
            let step = source_step(calls, client, packet, intent_fits, writers, now);
            let objected = first_objection(calls, calls[i], packet);
            &&& packet.why == "begin"@ && objected is Some ==> step.calls == calls.remove(i)
                && step.effects == ending(calls[i], objected->0, true)
            &&& calls[i].route.phase == Phase::Done && (packet.why != "begin"@ || objected is None)
                ==> step.calls == calls && step.effects.len() == 0
        }),
{
    lemma_at(calls, i);
    let me = CallV { id: calls[i].id, route: calls[i].route };
    assert(calls.update(i, me) =~= calls);
}

/// A command about a call that is not routed has no effect.
pub proof fn law_a_command_about_no_call_has_no_effect(
    calls: Seq<CallV>,
    client: u64,
    packet: PacketV,
    intent_fits: bool,
    writers: Seq<u64>,
    now: u64,
)
    requires
        forall|k: int| 0 <= k < calls.len() ==> (#[trigger] calls[k]).id != packet.call_id,
    ensures
        source_step(calls, client, packet, intent_fits, writers, now).calls == calls,
        source_step(calls, client, packet, intent_fits, writers, now).effects.len() == 0,
{
}

} // verus!
