//! What holds of the screenshot routes whatever messages come.

use crate::json::{law_same_is_reflexive, Val};
use crate::screenshot::base64::stands_for;
use crate::screenshot::manifest::{id_ok, operation_value, receipt_ok, MAX_PNG_BYTES};
use crate::screenshot::model::{
    admitted, advanced, announced, answered, begun, bound, bystanders, chunk_len, command_value,
    disconnect_step, distinct, end_step, ending, endings, expire_step, first_objection,
    forward_step, fresh_route, generation, held_output, index, keeps_result, last_word,
    lemma_generation, lemma_generation_within, lemma_ids_are_kept, objection, packet_step, patience,
    register_error, registered, removed, replaced, replacement, replacements, reply_error, rerouted,
    result_value, rival, route, routed, ruling, sound, sound_route, source_packet, source_step,
    stale, timeout_step, tool_error, uses, violation, writer_step, Answer, CallV, EffectV, Outcome,
    PacketV, Phase, RouteV, Sizes, Step, MAX_TOTAL_BYTES,
};
use vstd::prelude::*;
use vstd::utf8::encode_utf8;

verus! {

/// The bytes that a call counts for.
spec fn counts(call: CallV) -> nat {
    if call.route.phase == Phase::Done {
        0
    } else {
        announced(call.route)
    }
}

proof fn lemma_admitted_push(calls: Seq<CallV>, call: CallV)
    ensures
        admitted(calls.push(call)) == admitted(calls) + counts(call),
{
    assert(calls.push(call).drop_last() =~= calls);
}

proof fn lemma_admitted_update(calls: Seq<CallV>, i: int, call: CallV)
    requires
        0 <= i < calls.len(),
    ensures
        admitted(calls.update(i, call)) + counts(calls[i]) == admitted(calls) + counts(call),
    decreases calls.len(),
{
    let after = calls.update(i, call);
    if i == calls.len() - 1 {
        assert(after.drop_last() =~= calls.drop_last());
    } else {
        lemma_admitted_update(calls.drop_last(), i, call);
        assert(after.drop_last() =~= calls.drop_last().update(i, call));
        assert(after.last() == calls.last());
    }
}

proof fn lemma_admitted_remove(calls: Seq<CallV>, i: int)
    requires
        0 <= i < calls.len(),
    ensures
        admitted(calls.remove(i)) + counts(calls[i]) == admitted(calls),
    decreases calls.len(),
{
    let after = calls.remove(i);
    if i == calls.len() - 1 {
        assert(after =~= calls.drop_last());
    } else {
        lemma_admitted_remove(calls.drop_last(), i);
        assert(after.drop_last() =~= calls.drop_last().remove(i));
        assert(after.last() == calls.last());
    }
}

/// Filtered calls are some of the calls, still distinct, and count for no more.
proof fn lemma_filtered(calls: Seq<CallV>, keep: spec_fn(CallV) -> bool)
    ensures
        calls.filter(keep).len() <= calls.len(),
        admitted(calls.filter(keep)) <= admitted(calls),
        forall|i: int|
            0 <= i < calls.filter(keep).len() ==> calls.contains(#[trigger] calls.filter(keep)[i]),
        distinct(calls) ==> distinct(calls.filter(keep)),
    decreases calls.len(),
{
    reveal(Seq::filter);
    if calls.len() > 0 {
        let rest = calls.drop_last();
        let kept = rest.filter(keep);
        lemma_filtered(rest, keep);
        let all = calls.filter(keep);
        if keep(calls.last()) {
            lemma_admitted_push(kept, calls.last());
            assert(all =~= kept.push(calls.last()));
        }
        assert forall|i: int| 0 <= i < all.len() implies calls.contains(#[trigger] all[i]) by {
            if i < kept.len() {
                assert(rest.contains(kept[i]));
                let j = rest.index_of(kept[i]);
                assert(calls[j] == all[i]);
            } else {
                assert(calls[calls.len() - 1] == all[i]);
            }
        }
        if distinct(calls) {
            assert(distinct(rest)) by {
                assert forall|i: int, j: int|
                    0 <= i < rest.len() && 0 <= j < rest.len() && #[trigger] rest[i].id
                        == #[trigger] rest[j].id implies i == j by {
                    assert(calls[i].id == calls[j].id);
                }
            }
            assert forall|i: int, j: int|
                0 <= i < all.len() && 0 <= j < all.len() && #[trigger] all[i].id
                    == #[trigger] all[j].id implies i == j by {
                if i < kept.len() && j < kept.len() {
                    assert(kept[i].id == kept[j].id);
                } else if i != j {
                    let k = if i < kept.len() {
                        i
                    } else {
                        j
                    };
                    assert(rest.contains(kept[k]));
                    let n = rest.index_of(kept[k]);
                    assert(calls[n].id == calls[calls.len() - 1].id);
                }
            }
        }
    }
}

/// Some of the calls of sound routes are sound.
proof fn lemma_filtered_is_sound(calls: Seq<CallV>, keep: spec_fn(CallV) -> bool)
    requires
        sound(calls),
    ensures
        sound(calls.filter(keep)),
        generation(calls.filter(keep)) <= generation(calls),
{
    lemma_filtered(calls, keep);
    let kept = calls.filter(keep);
    assert forall|i: int| 0 <= i < kept.len() implies sound_route(#[trigger] kept[i].route) && kept[i].route.sequence
        <= generation(calls) by {
        assert(calls.contains(kept[i]));
        let j = calls.index_of(kept[i]);
        assert(calls[j] == kept[i]);
        lemma_generation(calls, j);
    }
    lemma_generation_within(kept, generation(calls));
}

/// Sound routes stay sound where one of them is replaced by a sound one that
/// counts for no more, and its generation grows by one at most.
proof fn lemma_rerouted_is_sound(calls: Seq<CallV>, id: Seq<char>, next: RouteV)
    requires
        sound(calls),
        routed(calls, id),
        sound_route(next),
        counts(CallV { id, route: next }) <= counts(calls[index(calls, id)]),
        next.sequence <= route(calls, id).sequence + 1,
    ensures
        sound(rerouted(calls, id, next)),
        generation(rerouted(calls, id, next)) <= generation(calls) + 1,
{
    let i = index(calls, id);
    let after = rerouted(calls, id, next);
    lemma_admitted_update(calls, i, CallV { id, route: next });
    assert forall|a: int, b: int|
        0 <= a < after.len() && 0 <= b < after.len() && #[trigger] after[a].id == #[trigger] after[b].id implies a
        == b by {
        assert(calls[a].id == calls[b].id);
    }
    assert forall|k: int| 0 <= k < after.len() implies sound_route(#[trigger] after[k].route) && after[k].route.sequence
        <= generation(calls) + 1 by {
        lemma_generation(calls, k);
        assert(sound_route(calls[k].route));
    }
    lemma_generation_within(after, generation(calls) + 1);
}

proof fn lemma_removed_is_sound(calls: Seq<CallV>, i: int)
    requires
        sound(calls),
        0 <= i < calls.len(),
    ensures
        sound(calls.remove(i)),
        generation(calls.remove(i)) <= generation(calls),
{
    let after = calls.remove(i);
    lemma_admitted_remove(calls, i);
    assert forall|a: int, b: int|
        0 <= a < after.len() && 0 <= b < after.len() && #[trigger] after[a].id == #[trigger] after[b].id implies a
        == b by {
        let x = if a < i {
            a
        } else {
            a + 1
        };
        let y = if b < i {
            b
        } else {
            b + 1
        };
        assert(calls[x].id == calls[y].id);
    }
    assert forall|k: int| 0 <= k < after.len() implies sound_route(#[trigger] after[k].route) && after[k].route.sequence
        <= generation(calls) by {
        let x = if k < i {
            k
        } else {
            k + 1
        };
        assert(after[k] == calls[x]);
        assert(sound_route(calls[x].route));
        lemma_generation(calls, x);
    }
    lemma_generation_within(after, generation(calls));
}

/// A dispatched call keeps the routes sound, and starts at the first generation.
pub proof fn law_registering_keeps_routes_sound(
    calls: Seq<CallV>,
    id: Seq<char>,
    source: u64,
    slug: Seq<char>,
    args: Val,
    now: u64,
)
    requires
        sound(calls),
        register_error(calls, id, slug, args) is None,
    ensures
        sound(registered(calls, id, source, slug, args, now)),
        generation(registered(calls, id, source, slug, args, now)) <= generation(calls),
        routed(registered(calls, id, source, slug, args, now), id),
{
    let after = registered(calls, id, source, slug, args, now);
    let fresh = fresh_route(source, slug, args, now);
    assert(sound_route(fresh));
    if routed(calls, id) {
        let i = index(calls, id);
        lemma_admitted_update(calls, i, CallV { id, route: fresh });
        assert(after[i].id == id);
    } else {
        lemma_admitted_push(calls, CallV { id, route: fresh });
        assert(after[after.len() - 1].id == id);
    }
    assert forall|a: int, b: int|
        0 <= a < after.len() && 0 <= b < after.len() && #[trigger] after[a].id == #[trigger] after[b].id implies a
        == b by {
        if a < calls.len() && b < calls.len() {
            assert(calls[a].id == calls[b].id);
        } else if a < calls.len() {
            assert(calls[a].id == id);
        } else if b < calls.len() {
            assert(calls[b].id == id);
        }
    }
    assert forall|k: int| 0 <= k < after.len() implies sound_route(#[trigger] after[k].route) && after[k].route.sequence
        <= generation(calls) by {
        if k < calls.len() {
            lemma_generation(calls, k);
            assert(sound_route(calls[k].route));
        }
    }
    lemma_generation_within(after, generation(calls));
}

/// The end of a route keeps the others sound, and the ended call is gone.
pub proof fn law_ending_keeps_routes_sound(
    calls: Seq<CallV>,
    id: Seq<char>,
    reason: Seq<char>,
    relay: bool,
)
    requires
        sound(calls),
    ensures
        sound(end_step(calls, id, reason, relay).calls),
        generation(end_step(calls, id, reason, relay).calls) <= generation(calls),
        !routed(end_step(calls, id, reason, relay).calls, id),
        end_step(calls, id, reason, relay).calls == removed(calls, id),
{
    if routed(calls, id) {
        let i = index(calls, id);
        lemma_removed_is_sound(calls, i);
        let after = calls.remove(i);
        if routed(after, id) {
            let k = index(after, id);
            let x = if k < i {
                k
            } else {
                k + 1
            };
            assert(calls[x].id == calls[i].id);
        }
    }
}

/// A lost socket keeps the other routes sound, and no route hangs on it any more.
pub proof fn law_disconnecting_keeps_routes_sound(calls: Seq<CallV>, socket: u64)
    requires
        sound(calls),
    ensures
        sound(disconnect_step(calls, socket).calls),
        generation(disconnect_step(calls, socket).calls) <= generation(calls),
        forall|i: int|
            0 <= i < disconnect_step(calls, socket).calls.len() ==> !uses(
                #[trigger] disconnect_step(calls, socket).calls[i],
                socket,
            ),
{
    let keep = |c: CallV| !uses(c, socket);
    lemma_filtered_is_sound(calls, keep);
    lemma_filter_satisfies(calls, keep);
}

proof fn lemma_filter_satisfies(calls: Seq<CallV>, keep: spec_fn(CallV) -> bool)
    ensures
        forall|i: int| 0 <= i < calls.filter(keep).len() ==> keep(#[trigger] calls.filter(keep)[i]),
    decreases calls.len(),
{
    reveal(Seq::filter);
    if calls.len() > 0 {
        lemma_filter_satisfies(calls.drop_last(), keep);
    }
}

/// Elapsed deadlines keep the other routes sound, and every route that is left
/// has time.
pub proof fn law_expiring_keeps_routes_sound(calls: Seq<CallV>, now: u64)
    requires
        sound(calls),
    ensures
        sound(expire_step(calls, now).calls),
        generation(expire_step(calls, now).calls) <= generation(calls),
        forall|i: int|
            0 <= i < expire_step(calls, now).calls.len() ==> (#[trigger] expire_step(
                calls,
                now,
            ).calls[i]).route.deadline > now,
{
    let keep = |c: CallV| c.route.deadline > now;
    lemma_filtered_is_sound(calls, keep);
    lemma_filter_satisfies(calls, keep);
}

/// Rivals that are replaced count for nothing any more.
proof fn lemma_admitted_after_replacing(
    calls: Seq<CallV>,
    me: CallV,
    moved: RouteV,
    now: u64,
    i: int,
    n: int,
)
    requires
        distinct(calls),
        0 <= i < calls.len(),
        calls[i] == me,
        0 <= n <= calls.len(),
    ensures
        admitted(
            calls.take(n).map_values(
                |c: CallV|
                    if c.id == me.id {
                        CallV { id: me.id, route: moved }
                    } else if rival(c, me) {
                        replaced(c, now)
                    } else {
                        c
                    },
            ),
        ) == admitted(bystanders(calls.take(n), me)) + if i < n {
            counts(CallV { id: me.id, route: moved })
        } else {
            0
        },
    decreases n,
{
    let keep = |c: CallV| c.id != me.id && !rival(c, me);
    let change = |c: CallV|
        if c.id == me.id {
            CallV { id: me.id, route: moved }
        } else if rival(c, me) {
            replaced(c, now)
        } else {
            c
        };
    reveal(Seq::filter);
    if n > 0 {
        let c = calls[n - 1];
        lemma_admitted_after_replacing(calls, me, moved, now, i, n - 1);
        assert(calls.take(n).drop_last() =~= calls.take(n - 1));
        assert(calls.take(n).map_values(change) =~= calls.take(n - 1).map_values(change).push(
            change(c),
        ));
        lemma_admitted_push(calls.take(n - 1).map_values(change), change(c));
        if keep(c) {
            lemma_admitted_push(calls.take(n - 1).filter(keep), c);
            assert(calls.take(n).filter(keep) =~= calls.take(n - 1).filter(keep).push(c));
        } else {
            assert(calls.take(n).filter(keep) =~= calls.take(n - 1).filter(keep));
        }
        if n - 1 != i && c.id == me.id {
            assert(calls[n - 1].id == calls[i].id);
        }
    } else {
        assert(calls.take(n).map_values(change) =~= Seq::<CallV>::empty());
        assert(calls.take(n).filter(keep) =~= Seq::<CallV>::empty());
    }
}

/// A ruling on a sound route leaves a sound one, and a forwarded command leads to
/// one.
proof fn lemma_ruled_is_sound(
    before: RouteV,
    packet: PacketV,
    elsewhere: nat,
    intent_fits: bool,
    writer: u64,
    now: u64,
)
    requires
        sound_route(before),
        before.phase != Phase::Done,
        id_ok(packet.attempt_id),
        before.sequence < u64::MAX,
    ensures
        ({
            let ruled = ruling(before, packet, elsewhere, intent_fits);
            &&& ruled.route.sequence == before.sequence
            &&& match ruled.outcome {
                Outcome::Forward(phase, _) => {
                    let moved = advanced(
                        RouteV { writer: Some(writer), phase, ..ruled.route },
                        now,
                    );
                    &&& sound_route(moved)
                    &&& moved.sequence == before.sequence + 1
                    &&& packet.why != "begin"@ ==> announced(moved) == announced(before)
                    &&& packet.why == "begin"@ ==> elsewhere + announced(moved) <= MAX_TOTAL_BYTES
                },
                _ => sound_route(ruled.route) && announced(ruled.route) == announced(before)
                    && ruled.route.phase == before.phase,
            }
        }),
{
    assert(MAX_PNG_BYTES <= u64::MAX);
    reveal_strlit("begin");
    reveal_strlit("status");
    reveal_strlit("chunk");
    reveal_strlit("finish");
    reveal_strlit("cancel");
    assert("begin"@[0] != "chunk"@[0]);
    assert("begin"@.len() == 5 && "status"@.len() == 6 && "finish"@.len() == 6 && "cancel"@.len()
        == 6);
    if packet.why == "chunk"@ && before.phase == Phase::Ready && packet.data is Some && chunk_len(
        packet.data->0,
    ) != 0 {
        let n = chunk_len(packet.data->0);
        let s = encode_utf8(packet.data->0);
        assert(stands_for(s, n));
    }
}

/// A forwarded command keeps the routes sound.
proof fn lemma_forwarded_is_sound(
    calls: Seq<CallV>,
    id: Seq<char>,
    ruled: RouteV,
    why: Seq<char>,
    phase: Phase,
    fields: Val,
    writer: u64,
    now: u64,
)
    requires
        sound(calls),
        generation(calls) < u64::MAX,
        routed(calls, id),
        route(calls, id).phase != Phase::Done,
        ({
            let me = calls[index(calls, id)];
            let moved = advanced(RouteV { writer: Some(writer), phase, ..ruled }, now);
            &&& sound_route(moved)
            &&& moved.sequence == me.route.sequence + 1
            &&& why != "begin"@ ==> announced(moved) == announced(me.route)
            &&& why == "begin"@ ==> admitted(bystanders(calls, me)) + announced(moved)
                <= MAX_TOTAL_BYTES
        }),
    ensures
        ({
            let me = calls[index(calls, id)];
            let step = forward_step(calls, me, ruled, why, phase, fields, writer, now);
            &&& sound(step.calls)
            &&& generation(step.calls) <= generation(calls) + 1
        }),
{
    let i = index(calls, id);
    let me = calls[i];
    let moved = advanced(RouteV { writer: Some(writer), phase, ..ruled }, now);
    let after = forward_step(calls, me, ruled, why, phase, fields, writer, now).calls;
    if why == "begin"@ {
        lemma_admitted_after_replacing(calls, me, moved, now, i, calls.len() as int);
        assert(calls.take(calls.len() as int) =~= calls);
        let change = |c: CallV|
            if c.id == me.id {
                CallV { id: me.id, route: moved }
            } else if rival(c, me) {
                replaced(c, now)
            } else {
                c
            };
        assert(after =~= calls.map_values(change));
        assert forall|k: int| 0 <= k < after.len() implies #[trigger] after[k].id == calls[k].id by {
        }
        lemma_ids_are_kept(calls, after);
        assert forall|k: int| 0 <= k < after.len() implies sound_route(#[trigger] after[k].route)
            && after[k].route.sequence <= generation(calls) + 1 by {
            lemma_generation(calls, k);
            assert(sound_route(calls[k].route));
            if k == i {
                assert(after[k].route == moved);
            } else {
                assert(calls[k].id != calls[i].id);
            }
        }
        lemma_generation_within(after, generation(calls) + 1);
    } else {
        lemma_rerouted_is_sound(calls, id, moved);
        assert forall|k: int| 0 <= k < after.len() implies #[trigger] after[k] == rerouted(
            calls,
            id,
            moved,
        )[k] by {
            if k != i {
                assert(calls[k].id != calls[i].id);
            }
        }
        assert(after =~= rerouted(calls, id, moved));
    }
}

proof fn lemma_source_step_is_sound(
    calls: Seq<CallV>,
    socket: u64,
    packet: PacketV,
    intent_fits: bool,
    writers: Seq<u64>,
    now: u64,
)
    requires
        sound(calls),
        generation(calls) < u64::MAX,
    ensures
        sound(source_step(calls, socket, packet, intent_fits, writers, now).calls),
        generation(source_step(calls, socket, packet, intent_fits, writers, now).calls)
            <= generation(calls) + 1,
{
    let id = packet.call_id;
    if routed(calls, id) {
        let i = index(calls, id);
        let me = calls[i];
        lemma_generation(calls, i);
        assert(sound_route(me.route));
        if bound(me.route, socket, packet) {
            let objected = if packet.why == "begin"@ {
                first_objection(calls, me, packet)
            } else {
                None
            };
            if objected is Some {
                lemma_writerless(calls, id, begun(me.route));
            } else if !stale(me.route, packet) {
                let elsewhere = admitted(bystanders(calls, me));
                let ruled = ruling(me.route, packet, elsewhere, intent_fits);
                let writer = match ruled.route.writer {
                    Some(w) => w,
                    None => writers[0],
                };
                lemma_ruled_is_sound(me.route, packet, elsewhere, intent_fits, writer, now);
                let rest = rerouted(calls, id, ruled.route);
                match ruled.outcome {
                    Outcome::Violate(reason) => {
                        lemma_rerouted_is_sound(calls, id, ruled.route);
                    },
                    Outcome::End(reason) => {
                        lemma_rerouted_is_sound(calls, id, ruled.route);
                        law_ending_keeps_routes_sound(rest, id, reason, true);
                    },
                    Outcome::Forward(phase, fields) => {
                        if ruled.route.writer is None && writers.len() != 1 {
                            lemma_writerless(calls, id, ruled.route);
                        } else {
                            lemma_forwarded_is_sound(
                                calls,
                                id,
                                ruled.route,
                                packet.why,
                                phase,
                                fields,
                                writer,
                                now,
                            );
                        }
                    },
                }
            }
        }
    }
}

/// A route that ends leaves the others as they were, whatever it had become.
proof fn lemma_writerless(calls: Seq<CallV>, id: Seq<char>, ruled: RouteV)
    requires
        sound(calls),
        routed(calls, id),
    ensures
        removed(rerouted(calls, id, ruled), id) == removed(calls, id),
        routed(rerouted(calls, id, ruled), id),
        sound(removed(calls, id)),
        generation(removed(calls, id)) <= generation(calls),
{
    let i = index(calls, id);
    let rest = rerouted(calls, id, ruled);
    assert(rest[i].id == id);
    let j = index(rest, id);
    assert(calls[j].id == calls[i].id);
    assert(rest.remove(i) =~= calls.remove(i));
    lemma_removed_is_sound(calls, i);
}

proof fn lemma_writer_step_is_sound(
    calls: Seq<CallV>,
    socket: u64,
    data: Val,
    requested_fits: bool,
    now: u64,
)
    requires
        sound(calls),
        generation(calls) < u64::MAX,
    ensures
        sound(writer_step(calls, socket, data, requested_fits, now).calls),
        generation(writer_step(calls, socket, data, requested_fits, now).calls) <= generation(calls)
            + 1,
{
    match data.at("binding"@).at("attempt"@).text_at("call_id"@) {
        Some(id) => {
            if routed(calls, id) {
                let i = index(calls, id);
                let mine = route(calls, id);
                lemma_generation(calls, i);
                assert(sound_route(calls[i].route));
                if reply_error(id, mine, data) is None && mine.writer == Some(socket) {
                    let why = data.text_at("why"@)->0;
                    let reply = answered(id, mine, data, why, requested_fits);
                    reveal_strlit("unknown");
                    reveal_strlit("receiving");
                    reveal_strlit("ready");
                    reveal_strlit("ack");
                    match reply.answer {
                        Answer::Refuse(reason) => {
                            lemma_rerouted_is_sound(calls, id, reply.route);
                        },
                        Answer::Relay(result) => {
                            let kept = RouteV {
                                result: if keeps_result(
                                    reply.route,
                                    why,
                                ) {
                                    Some(result)
                                } else {
                                    mine.result
                                },
                                ..reply.route
                            };
                            assert("ready"@.len() == 5 && "ack"@.len() == 3 && "unknown"@.len() == 7
                                && "receiving"@.len() == 9);
                            lemma_rerouted_is_sound(calls, id, advanced(kept, now));
                        },
                    }
                }
            }
        },
        None => {},
    }
}

/// Whatever packet comes, the routes stay sound: at most `MAX_CALLS` of them,
/// within [`MAX_TOTAL_BYTES`] together, each with a valid manifest, no more bytes
/// than it announces and one chunk at most that is not acknowledged. A packet
/// starts one generation at most.
pub proof fn law_packets_keep_routes_sound(
    calls: Seq<CallV>,
    socket: u64,
    data: Val,
    sizes: Sizes,
    writers: Seq<u64>,
    now: u64,
)
    requires
        sound(calls),
        generation(calls) < u64::MAX,
    ensures
        sound(packet_step(calls, socket, data, sizes, writers, now).calls),
        generation(packet_step(calls, socket, data, sizes, writers, now).calls) <= generation(calls)
            + 1,
{
    if sizes.packet {
        if data.get("binding"@) is Some {
            lemma_writer_step_is_sound(calls, socket, data, sizes.requested, now);
        } else if source_packet(data) is Some {
            lemma_source_step_is_sound(
                calls,
                socket,
                source_packet(data)->0,
                sizes.intent,
                writers,
                now,
            );
        }
    }
}

// ---------------------------------------------------------------------------
// Who may move a route
// ---------------------------------------------------------------------------

/// A packet, of the source or of a writer, that names a call without a route has
/// no effect at all: it is a late one.
pub proof fn law_packets_of_ended_calls_are_ignored(
    calls: Seq<CallV>,
    socket: u64,
    data: Val,
    sizes: Sizes,
    writers: Seq<u64>,
    now: u64,
)
    requires
        sizes.packet,
        match data.get("binding"@) {
            Some(binding) => binding.at("attempt"@).text_at("call_id"@) matches Some(id) && !routed(
                calls,
                id,
            ),
            None => source_packet(data) matches Some(p) && !routed(calls, p.call_id),
        },
    ensures
        packet_step(calls, socket, data, sizes, writers, now) == (Step {
            calls,
            effects: Seq::empty(),
        }),
{
}

/// A packet that is too long moves no route, and its socket is closed.
pub proof fn law_long_packets_move_nothing(
    calls: Seq<CallV>,
    socket: u64,
    data: Val,
    sizes: Sizes,
    writers: Seq<u64>,
    now: u64,
)
    requires
        !sizes.packet,
    ensures
        packet_step(calls, socket, data, sizes, writers, now) == (Step {
            calls,
            effects: violation(socket, "screenshot packet exceeds limit"@),
        }),
{
}

/// A route that is done is deaf: a command for it has no effect, and a reply to it
/// moves no route.
pub proof fn law_done_routes_are_deaf(
    calls: Seq<CallV>,
    socket: u64,
    packet: PacketV,
    data: Val,
    fits: bool,
    writers: Seq<u64>,
    now: u64,
)
    requires
        routed(calls, packet.call_id),
        route(calls, packet.call_id).phase == Phase::Done,
        bound(route(calls, packet.call_id), socket, packet),
        packet.why != "begin"@,
        data.at("binding"@).at("attempt"@).text_at("call_id"@) == Some(packet.call_id),
    ensures
        source_step(calls, socket, packet, fits, writers, now) == (Step {
            calls,
            effects: Seq::empty(),
        }),
        writer_step(calls, socket, data, fits, now).calls == calls,
{
}

/// Only the socket to which a call was dispatched can send commands for it: from
/// another socket, or for another operation, a command moves no route, and its
/// socket is closed.
pub proof fn law_only_the_source_commands(
    calls: Seq<CallV>,
    socket: u64,
    packet: PacketV,
    intent_fits: bool,
    writers: Seq<u64>,
    now: u64,
)
    requires
        routed(calls, packet.call_id),
        route(calls, packet.call_id).source != socket || route(calls, packet.call_id).operation
            != packet.operation_id,
    ensures
        source_step(calls, socket, packet, intent_fits, writers, now) == (Step {
            calls,
            effects: violation(socket, "screenshot source/call/operation binding differs"@),
        }),
{
}

/// Only the selected writer can answer: the reply of another socket moves no
/// route, and the socket is closed.
pub proof fn law_only_the_writer_answers(
    calls: Seq<CallV>,
    socket: u64,
    data: Val,
    requested_fits: bool,
    now: u64,
)
    requires
        data.at("binding"@).at("attempt"@).text_at("call_id"@) matches Some(id) && routed(calls, id)
            && route(calls, id).writer != Some(socket),
    ensures
        writer_step(calls, socket, data, requested_fits, now) == (Step {
            calls,
            effects: violation(socket, "reply is not from the selected writer"@),
        }),
{
}

/// A command of an earlier attempt has no effect.
pub proof fn law_late_attempts_are_ignored(
    calls: Seq<CallV>,
    socket: u64,
    packet: PacketV,
    intent_fits: bool,
    writers: Seq<u64>,
    now: u64,
)
    requires
        routed(calls, packet.call_id),
        bound(route(calls, packet.call_id), socket, packet),
        packet.why != "begin"@,
        packet.why != "status"@,
        packet.attempt_id != route(calls, packet.call_id).attempt,
    ensures
        source_step(calls, socket, packet, intent_fits, writers, now) == (Step {
            calls,
            effects: Seq::empty(),
        }),
{
}

/// A command can be answered once: the same reply again has no effect.
pub proof fn law_a_reply_counts_once(
    calls: Seq<CallV>,
    socket: u64,
    data: Val,
    requested_fits: bool,
    now: u64,
    later: u64,
)
    requires
        sound(calls),
        generation(calls) < u64::MAX,
        data.at("binding"@).at("attempt"@).text_at("call_id"@) matches Some(id) && routed(calls, id)
            && route(calls, id).writer == Some(socket) && reply_error(
            id,
            route(calls, id),
            data,
        ) is None && answered(
            id,
            route(calls, id),
            data,
            data.text_at("why"@)->0,
            requested_fits,
        ).answer is Relay,
    ensures
        ({
            let after = writer_step(calls, socket, data, requested_fits, now).calls;
            writer_step(after, socket, data, requested_fits, later) == (Step {
                calls: after,
                effects: Seq::empty(),
            })
        }),
{
    let id = data.at("binding"@).at("attempt"@).text_at("call_id"@)->0;
    let i = index(calls, id);
    lemma_generation(calls, i);
    let after = writer_step(calls, socket, data, requested_fits, now).calls;
    assert(after[i].id == id);
    let j = index(after, id);
    assert(after[j].id == id);
    assert(j == i) by {
        if j != i {
            assert(calls[j].id == calls[i].id);
        }
    }
}

/// What can happen to the routes.
pub enum EventV {
    Register { id: Seq<char>, source: u64, slug: Seq<char>, args: Val, now: u64 },
    Packet { socket: u64, data: Val, sizes: Sizes, writers: Seq<u64>, now: u64 },
    End { id: Seq<char>, reason: Seq<char>, relay: bool },
    Remove { id: Seq<char> },
    Disconnect { socket: u64 },
    Expire { now: u64 },
    Timeout { id: Seq<char>, generation: u64, now: u64 },
}

/// The routes after an event.
pub open spec fn next(calls: Seq<CallV>, event: EventV) -> Seq<CallV> {
    match event {
        EventV::Register { id, source, slug, args, now } => if register_error(
            calls,
            id,
            slug,
            args,
        ) is None {
            registered(calls, id, source, slug, args, now)
        } else {
            calls
        },
        EventV::Packet { socket, data, sizes, writers, now } => packet_step(
            calls,
            socket,
            data,
            sizes,
            writers,
            now,
        ).calls,
        EventV::End { id, reason, relay } => end_step(calls, id, reason, relay).calls,
        EventV::Remove { id } => removed(calls, id),
        EventV::Disconnect { socket } => disconnect_step(calls, socket).calls,
        EventV::Expire { now } => expire_step(calls, now).calls,
        EventV::Timeout { id, generation, now } => timeout_step(calls, id, generation, now).calls,
    }
}

/// The routes after some events.
pub open spec fn afterwards(calls: Seq<CallV>, events: Seq<EventV>) -> Seq<CallV>
    decreases events.len(),
{
    if events.len() == 0 {
        calls
    } else {
        next(afterwards(calls, events.drop_last()), events.last())
    }
}

/// Whether an event dispatches a call.
pub open spec fn dispatches(event: EventV, call_id: Seq<char>) -> bool {
    event matches EventV::Register { id, .. } && id == call_id
}

/// Whether a route is a later one of the same call: of no earlier generation, and
/// with the same writer, once it has one.
pub open spec fn follows(earlier: CallV, later: CallV) -> bool {
    &&& earlier.id == later.id
    &&& earlier.route.sequence <= later.route.sequence
    &&& earlier.route.writer is Some ==> later.route.writer == earlier.route.writer
}

/// Whether a route comes from one of the same call.
spec fn comes_from(calls: Seq<CallV>, later: CallV) -> bool {
    exists|j: int| 0 <= j < calls.len() && follows(#[trigger] calls[j], later)
}

spec fn all_come_from(calls: Seq<CallV>, after: Seq<CallV>) -> bool {
    forall|k: int| 0 <= k < after.len() ==> comes_from(calls, #[trigger] after[k])
}

proof fn lemma_kept_come_from(calls: Seq<CallV>, after: Seq<CallV>)
    requires
        forall|k: int| 0 <= k < after.len() ==> calls.contains(#[trigger] after[k]),
    ensures
        all_come_from(calls, after),
{
    assert forall|k: int| 0 <= k < after.len() implies comes_from(calls, #[trigger] after[k]) by {
        let j = calls.index_of(after[k]);
        assert(follows(calls[j], after[k]));
    }
}

proof fn lemma_left_come_from(calls: Seq<CallV>, id: Seq<char>)
    ensures
        all_come_from(calls, removed(calls, id)),
{
    let after = removed(calls, id);
    assert forall|k: int| 0 <= k < after.len() implies calls.contains(#[trigger] after[k]) by {
        if routed(calls, id) && k >= index(calls, id) {
            assert(after[k] == calls[k + 1]);
        } else {
            assert(after[k] == calls[k]);
        }
    }
    lemma_kept_come_from(calls, after);
}

proof fn lemma_filtered_come_from(calls: Seq<CallV>, keep: spec_fn(CallV) -> bool)
    ensures
        all_come_from(calls, calls.filter(keep)),
    decreases calls.len(),
{
    reveal(Seq::filter);
    if calls.len() > 0 {
        let rest = calls.drop_last();
        lemma_filtered_come_from(rest, keep);
        let after = calls.filter(keep);
        assert forall|k: int| 0 <= k < after.len() implies comes_from(calls, #[trigger] after[k]) by {
            if k < rest.filter(keep).len() {
                assert(comes_from(rest, rest.filter(keep)[k]));
                let j = choose|j: int|
                    0 <= j < rest.len() && follows(#[trigger] rest[j], rest.filter(keep)[k]);
                assert(follows(calls[j], after[k]));
            } else {
                assert(follows(calls[calls.len() - 1], after[k]));
            }
        }
    }
}

proof fn lemma_moved_come_from(calls: Seq<CallV>, after: Seq<CallV>)
    requires
        after.len() == calls.len(),
        forall|k: int| 0 <= k < after.len() ==> follows(calls[k], #[trigger] after[k]),
    ensures
        all_come_from(calls, after),
{
    assert forall|k: int| 0 <= k < after.len() implies comes_from(calls, #[trigger] after[k]) by {
        assert(follows(calls[k], after[k]));
    }
}

proof fn lemma_source_come_from(
    calls: Seq<CallV>,
    socket: u64,
    packet: PacketV,
    intent_fits: bool,
    writers: Seq<u64>,
    now: u64,
)
    requires
        sound(calls),
        generation(calls) < u64::MAX,
    ensures
        all_come_from(calls, source_step(calls, socket, packet, intent_fits, writers, now).calls),
{
    let id = packet.call_id;
    let after = source_step(calls, socket, packet, intent_fits, writers, now).calls;
    if routed(calls, id) {
        let i = index(calls, id);
        let me = calls[i];
        let ruled = ruling(me.route, packet, admitted(bystanders(calls, me)), intent_fits);
        assert(ruled.route.sequence == me.route.sequence && ruled.route.writer == me.route.writer);
        lemma_left_come_from(calls, id);
        lemma_writerless(calls, id, ruled.route);
        lemma_writerless(calls, id, begun(me.route));
        assert forall|k: int| 0 <= k < calls.len() implies (#[trigger] calls[k]).route.sequence
            < u64::MAX by {
            lemma_generation(calls, k);
        }
        if after.len() == calls.len() {
            assert forall|k: int| 0 <= k < after.len() implies follows(
                calls[k],
                #[trigger] after[k],
            ) by {
                if k != i {
                    assert(calls[k].id != calls[i].id);
                }
            }
            lemma_moved_come_from(calls, after);
        }
    } else {
        lemma_moved_come_from(calls, after);
    }
}

/// Whatever happens, a route of a call that is not dispatched again comes from the
/// route that the call had: its generation does not decrease, and it keeps its
/// writer. The routes stay sound, and an event starts one generation at most.
pub proof fn law_generations_only_grow(calls: Seq<CallV>, event: EventV, id: Seq<char>)
    requires
        sound(calls),
        generation(calls) < u64::MAX,
        !dispatches(event, id),
    ensures
        sound(next(calls, event)),
        generation(next(calls, event)) <= generation(calls) + 1,
        routed(next(calls, event), id) ==> routed(calls, id) && follows(
            CallV { id, route: route(calls, id) },
            CallV { id, route: route(next(calls, event), id) },
        ),
{
    let after = next(calls, event);
    match event {
        EventV::Register { id: other, source, slug, args, now } => {
            if register_error(calls, other, slug, args) is None {
                law_registering_keeps_routes_sound(calls, other, source, slug, args, now);
                if routed(after, id) {
                    let k = index(after, id);
                    assert(k < calls.len() && after[k] == calls[k]);
                    assert(follows(calls[k], after[k]));
                }
            } else {
                lemma_moved_come_from(calls, after);
            }
        },
        EventV::Packet { socket, data, sizes, writers, now } => {
            law_packets_keep_routes_sound(calls, socket, data, sizes, writers, now);
            if sizes.packet && data.get("binding"@) is None && source_packet(data) is Some {
                let packet = source_packet(data)->0;
                lemma_source_come_from(calls, socket, packet, sizes.intent, writers, now);
            } else {
                assert forall|k: int| 0 <= k < calls.len() implies follows(
                    calls[k],
                    #[trigger] after[k],
                ) by {
                    lemma_generation(calls, k);
                }
                lemma_moved_come_from(calls, after);
            }
        },
        EventV::End { id: other, reason, relay } => {
            law_ending_keeps_routes_sound(calls, other, reason, relay);
            lemma_left_come_from(calls, other);
        },
        EventV::Remove { id: other } => {
            law_ending_keeps_routes_sound(calls, other, Seq::empty(), true);
            lemma_left_come_from(calls, other);
        },
        EventV::Disconnect { socket } => {
            law_disconnecting_keeps_routes_sound(calls, socket);
            lemma_filtered_come_from(calls, |c: CallV| !uses(c, socket));
        },
        EventV::Expire { now } => {
            law_expiring_keeps_routes_sound(calls, now);
            lemma_filtered_come_from(calls, |c: CallV| c.route.deadline > now);
        },
        EventV::Timeout { id: other, generation, now } => {
            let reason = "screenshot route deadline elapsed"@;
            law_ending_keeps_routes_sound(calls, other, reason, true);
            lemma_left_come_from(calls, other);
            lemma_moved_come_from(calls, calls);
        },
    }
    if routed(after, id) {
        let k = index(after, id);
        assert(comes_from(calls, after[k]));
        let j = choose|j: int| 0 <= j < calls.len() && follows(#[trigger] calls[j], after[k]);
        assert(calls[j].id == id);
        assert(index(calls, id) == j);
    }
}

/// Over any number of events too, the generation of a call that is not dispatched
/// again does not decrease, and the call keeps its writer.
pub proof fn law_generations_never_shrink(calls: Seq<CallV>, events: Seq<EventV>, id: Seq<char>)
    requires
        sound(calls),
        generation(calls) + events.len() <= u64::MAX,
        forall|i: int| 0 <= i < events.len() ==> !dispatches(#[trigger] events[i], id),
    ensures
        sound(afterwards(calls, events)),
        generation(afterwards(calls, events)) <= generation(calls) + events.len(),
        routed(afterwards(calls, events), id) ==> routed(calls, id) && follows(
            CallV { id, route: route(calls, id) },
            CallV { id, route: route(afterwards(calls, events), id) },
        ),
    decreases events.len(),
{
    if events.len() > 0 {
        let rest = events.drop_last();
        assert forall|i: int| 0 <= i < rest.len() implies !dispatches(#[trigger] rest[i], id) by {
            assert(rest[i] == events[i]);
        }
        law_generations_never_shrink(calls, rest, id);
        assert(!dispatches(events[events.len() - 1], id));
        law_generations_only_grow(afterwards(calls, rest), events.last(), id);
    }
}

/// A stale reply has no authority: a reply that was accepted has no effect ever
/// after, whatever lies between, as long as its call is not dispatched again.
#[verifier::rlimit(60)]
pub proof fn law_a_stale_reply_has_no_authority(
    calls: Seq<CallV>,
    socket: u64,
    data: Val,
    requested_fits: bool,
    now: u64,
    events: Seq<EventV>,
    still_fits: bool,
    later: u64,
)
    requires
        sound(calls),
        generation(calls) + 1 + events.len() <= u64::MAX,
        ({
            let effects = writer_step(calls, socket, data, requested_fits, now).effects;
            effects.len() > 0 && effects[0] is Send
        }),
        data.at("binding"@).at("attempt"@).text_at("call_id"@) matches Some(id) ==> forall|i: int|
            0 <= i < events.len() ==> !dispatches(#[trigger] events[i], id),
    ensures
        ({
            let accepted = writer_step(calls, socket, data, requested_fits, now).calls;
            let after = afterwards(accepted, events);
            writer_step(after, socket, data, still_fits, later) == (Step {
                calls: after,
                effects: Seq::empty(),
            })
        }),
{
    let id = data.at("binding"@).at("attempt"@).text_at("call_id"@)->0;
    let i = index(calls, id);
    let accepted = writer_step(calls, socket, data, requested_fits, now).calls;
    lemma_generation(calls, i);
    lemma_writer_step_is_sound(calls, socket, data, requested_fits, now);
    assert(accepted[i].id == id);
    let j = index(accepted, id);
    assert(accepted[j].id == id && calls[j].id == calls[i].id);
    law_generations_never_shrink(accepted, events, id);
}

/// A timer of an earlier generation has no effect.
pub proof fn law_stale_timers_do_nothing(calls: Seq<CallV>, id: Seq<char>, fired: u64, now: u64)
    requires
        routed(calls, id) ==> route(calls, id).sequence != fired,
    ensures
        timeout_step(calls, id, fired, now) == (Step { calls, effects: Seq::empty() }),
{
}

/// A forwarded command starts a generation, with its own deadline: a timer of the
/// generation before cannot end the route any more.
pub proof fn law_a_command_starts_a_generation(
    calls: Seq<CallV>,
    id: Seq<char>,
    ruled: RouteV,
    why: Seq<char>,
    phase: Phase,
    fields: Val,
    writer: u64,
    now: u64,
    later: u64,
)
    requires
        sound(calls),
        routed(calls, id),
        ruled.sequence < u64::MAX,
    ensures
        ({
            let step = forward_step(
                calls,
                calls[index(calls, id)],
                ruled,
                why,
                phase,
                fields,
                writer,
                now,
            );
            &&& routed(step.calls, id)
            &&& route(step.calls, id).sequence == ruled.sequence + 1
            &&& route(step.calls, id).deadline == (now + patience(phase)) as u64
            &&& timeout_step(step.calls, id, ruled.sequence, later) == (Step {
                calls: step.calls,
                effects: Seq::empty(),
            })
        }),
{
    let i = index(calls, id);
    let step = forward_step(calls, calls[i], ruled, why, phase, fields, writer, now);
    assert(step.calls[i].id == id);
    let j = index(step.calls, id);
    assert(calls[j].id == calls[i].id);
}

/// A relayed reply starts a generation, with its own deadline, and leaves the
/// other calls alone.
pub proof fn law_a_reply_starts_a_generation(
    calls: Seq<CallV>,
    socket: u64,
    data: Val,
    requested_fits: bool,
    now: u64,
    later: u64,
    k: int,
)
    requires
        sound(calls),
        generation(calls) < u64::MAX,
        data.at("binding"@).at("attempt"@).text_at("call_id"@) matches Some(id) && routed(calls, id)
            && route(calls, id).writer == Some(socket) && reply_error(
            id,
            route(calls, id),
            data,
        ) is None && answered(
            id,
            route(calls, id),
            data,
            data.text_at("why"@)->0,
            requested_fits,
        ).answer is Relay,
        0 <= k < calls.len(),
    ensures
        ({
            let id = data.at("binding"@).at("attempt"@).text_at("call_id"@)->0;
            let before = route(calls, id);
            let step = writer_step(calls, socket, data, requested_fits, now);
            &&& routed(step.calls, id)
            &&& route(step.calls, id).sequence == before.sequence + 1
            &&& route(step.calls, id).deadline == (now + patience(
                route(step.calls, id).phase,
            )) as u64
            &&& timeout_step(step.calls, id, before.sequence, later) == (Step {
                calls: step.calls,
                effects: Seq::empty(),
            })
            &&& calls[k].id != id ==> step.calls[k] == calls[k]
        }),
{
    let id = data.at("binding"@).at("attempt"@).text_at("call_id"@)->0;
    let i = index(calls, id);
    lemma_generation(calls, i);
    let step = writer_step(calls, socket, data, requested_fits, now);
    assert(step.calls[i].id == id);
    let j = index(step.calls, id);
    assert(calls[j].id == calls[i].id);
}

// ---------------------------------------------------------------------------
// What the end of a route says
// ---------------------------------------------------------------------------

/// The names of members and the words of dispositions differ.
proof fn lemma_words()
    ensures
        "what"@ != "why"@,
        "why"@ != "call_id"@,
        "why"@ != "operation_id"@,
        "why"@ != "attempt_id"@,
        "why"@ != "reason"@,
        "why"@ != "binding"@,
        "why"@ != "sequence"@,
        "why"@ != "next_offset"@,
        "why"@ != "receipt"@,
        "call_id"@ != "what"@,
        "call_id"@ != "operation_id"@,
        "call_id"@ != "attempt_id"@,
        "call_id"@ != "reason"@,
        "call_id"@ != "next_offset"@,
        "call_id"@ != "receipt"@,
        "operation_id"@ != "attempt_id"@,
        "operation_id"@ != "reason"@,
        "operation_id"@ != "next_offset"@,
        "operation_id"@ != "receipt"@,
        "attempt_id"@ != "reason"@,
        "attempt_id"@ != "next_offset"@,
        "attempt_id"@ != "receipt"@,
        "binding"@ != "what"@,
        "binding"@ != "call_id"@,
        "binding"@ != "operation_id"@,
        "binding"@ != "attempt_id"@,
        "binding"@ != "reason"@,
        "binding"@ != "next_offset"@,
        "binding"@ != "receipt"@,
        "binding"@ != "sequence"@,
        "sequence"@ != "what"@,
        "sequence"@ != "call_id"@,
        "sequence"@ != "operation_id"@,
        "sequence"@ != "attempt_id"@,
        "sequence"@ != "reason"@,
        "sequence"@ != "next_offset"@,
        "sequence"@ != "receipt"@,
        "reason"@ != "receipt"@,
        "rejected"@ != "unresolved"@,
        "rejected"@ != "begin"@,
        "cancel"@ != "begin"@,
        "cancel"@ != "rejected"@,
        "aborted"@ != "rejected"@,
        "aborted"@ != "unresolved"@,
{
    reveal_strlit("what");
    reveal_strlit("why");
    reveal_strlit("call_id");
    reveal_strlit("operation_id");
    reveal_strlit("attempt_id");
    reveal_strlit("reason");
    reveal_strlit("binding");
    reveal_strlit("sequence");
    reveal_strlit("next_offset");
    reveal_strlit("receipt");
    reveal_strlit("rejected");
    reveal_strlit("unresolved");
    reveal_strlit("begin");
    reveal_strlit("cancel");
    reveal_strlit("aborted");
    assert("what"@.len() == 4 && "why"@.len() == 3 && "call_id"@.len() == 7 && "operation_id"@.len()
        == 12 && "attempt_id"@.len() == 10 && "reason"@.len() == 6 && "binding"@.len() == 7
        && "sequence"@.len() == 8 && "next_offset"@.len() == 11 && "receipt"@.len() == 7
        && "rejected"@.len() == 8 && "unresolved"@.len() == 10 && "begin"@.len() == 5
        && "cancel"@.len() == 6 && "aborted"@.len() == 7);
    assert("call_id"@[0] != "receipt"@[0]);
    assert("binding"@[0] != "receipt"@[0]);
    assert("binding"@[0] != "call_id"@[0]);
}

/// What a relayed packet says.
proof fn lemma_result_value(
    id: Seq<char>,
    route: RouteV,
    why: Seq<char>,
    reason: Option<Seq<char>>,
)
    ensures
        ({
            let r = result_value(id, route, why, reason);
            &&& r is Object
            &&& r.text_at("why"@) == Some(why)
            &&& r.text_at("call_id"@) == Some(id)
            &&& r.text_at("operation_id"@) == Some(route.operation)
            &&& r.text_at("attempt_id"@) == Some(route.attempt)
            &&& r.get("binding"@) is None
            &&& r.get("sequence"@) is None
        }),
{
    lemma_words();
}

/// A route that ends is completed exactly once, with an outcome that names its
/// call. Where no outcome is known, contact that is lost before a finish was
/// forwarded is a rejection; after that, or while a status is asked for, the
/// outcome is unresolved. It names the operation, by which it can be asked for
/// again.
pub proof fn law_a_lost_route_is_rejected_or_unresolved(
    calls: Seq<CallV>,
    id: Seq<char>,
    reason: Seq<char>,
    relay: bool,
)
    requires
        routed(calls, id),
        route(calls, id).result is None,
    ensures
        ({
            let lost = route(calls, id);
            let word = last_word(id, lost, reason);
            let effects = end_step(calls, id, reason, relay).effects;
            &&& effects.last() == (EffectV::Complete { call_id: calls[index(calls, id)].id, packet: word })
            &&& forall|i: int| 0 <= i < effects.len() - 1 ==> (#[trigger] effects[i]) !is Complete
            &&& word.text_at("why"@) == Some(
                if lost.finish_sent || lost.phase == Phase::Querying {
                    "unresolved"@
                } else {
                    "rejected"@
                },
            )
            &&& word.text_at("operation_id"@) == Some(lost.operation)
            &&& word.text_at("attempt_id"@) == Some(lost.attempt)
            &&& word.text_at("call_id"@) == Some(id)
        }),
{
    let lost = route(calls, id);
    lemma_words();
    lemma_result_value(id, lost, "unresolved"@, Some(reason));
    lemma_result_value(id, lost, "rejected"@, Some(reason));
}

/// An outcome that is known is what the call is completed with, however its
/// route ends, and the writer is not asked to cancel any more.
pub proof fn law_a_known_outcome_survives(
    calls: Seq<CallV>,
    id: Seq<char>,
    reason: Seq<char>,
    relay: bool,
    outcome: Val,
)
    requires
        routed(calls, id),
        route(calls, id).result == Some(outcome),
    ensures
        ({
            let effects = end_step(calls, id, reason, relay).effects;
            &&& effects.last() == (EffectV::Complete {
                call_id: calls[index(calls, id)].id,
                packet: outcome,
            })
            &&& forall|i: int|
                0 <= i < effects.len() ==> match #[trigger] effects[i] {
                    EffectV::Send { socket, packet } => socket == route(calls, id).source && packet
                        == outcome,
                    _ => true,
                }
        }),
{
}

/// A receive that is lost is cancelled: the writer gets exactly one command, of
/// the next generation.
pub proof fn law_a_lost_receive_is_cancelled(
    calls: Seq<CallV>,
    id: Seq<char>,
    reason: Seq<char>,
    relay: bool,
)
    requires
        sound(calls),
        routed(calls, id),
        match route(calls, id).phase {
            Phase::Opening | Phase::Ready | Phase::Chunk(_) | Phase::Finishing
            | Phase::Cancelling => true,
            _ => false,
        },
    ensures
        ({
            let lost = route(calls, id);
            let next = RouteV { sequence: (lost.sequence + 1) as u64, ..lost };
            let effects = end_step(calls, id, reason, relay).effects;
            &&& lost.writer is Some
            &&& effects[0] == (EffectV::Send {
                socket: lost.writer->0,
                packet: command_value(
                    calls[index(calls, id)].id,
                    next,
                    "cancel"@,
                    Val::empty_object(),
                ),
            })
            &&& forall|i: int|
                0 < i < effects.len() ==> match #[trigger] effects[i] {
                    EffectV::Send { socket, packet } => socket == lost.source && packet
                        == last_word(calls[index(calls, id)].id, lost, reason),
                    _ => true,
                }
        }),
{
    assert(sound_route(calls[index(calls, id)].route));
}

/// The end of one route is among the ends of several.
proof fn lemma_endings_hold(calls: Seq<CallV>, reason: Seq<char>, k: int)
    requires
        0 <= k < calls.len(),
    ensures
        forall|e: EffectV| #[trigger]
            ending(calls[k], reason, true).contains(e) ==> endings(calls, reason).contains(e),
    decreases calls.len(),
{
    let whole = endings(calls, reason);
    let front = endings(calls.drop_last(), reason);
    let last = ending(calls.last(), reason, true);
    if k < calls.len() - 1 {
        lemma_endings_hold(calls.drop_last(), reason, k);
        assert(calls.drop_last()[k] == calls[k]);
        assert forall|e: EffectV| #[trigger]
            ending(calls[k], reason, true).contains(e) implies whole.contains(e) by {
            assert(front.contains(e));
            let i = front.index_of(e);
            assert(whole[i] == e);
        }
    } else {
        assert forall|e: EffectV| #[trigger] last.contains(e) implies whole.contains(e) by {
            let i = last.index_of(e);
            assert(whole[front.len() + i] == e);
        }
    }
}

/// Every call that hangs on a lost socket is completed, with the outcome that is
/// known of it or with what its loss means.
pub proof fn law_a_lost_socket_completes_its_calls(calls: Seq<CallV>, socket: u64, i: int)
    requires
        0 <= i < calls.len(),
        uses(calls[i], socket),
    ensures
        disconnect_step(calls, socket).effects.contains(
            EffectV::Complete {
                call_id: calls[i].id,
                packet: last_word(
                    calls[i].id,
                    calls[i].route,
                    "screenshot route endpoint disconnected"@,
                ),
            },
        ),
{
    let gone = |c: CallV| uses(c, socket);
    let reason = "screenshot route endpoint disconnected"@;
    lemma_kept_by_filter(calls, gone, i);
    let k = choose|k: int| 0 <= k < calls.filter(gone).len() && #[trigger] calls.filter(gone)[k] == calls[i];
    lemma_endings_hold(calls.filter(gone), reason, k);
    let own = ending(calls[i], reason, true);
    assert(own.contains(own.last())) by {
        assert(own[own.len() - 1] == own.last());
    }
}

/// Every call whose deadline has passed is completed.
pub proof fn law_an_expired_call_is_completed(calls: Seq<CallV>, now: u64, i: int)
    requires
        0 <= i < calls.len(),
        calls[i].route.deadline <= now,
    ensures
        expire_step(calls, now).effects.contains(
            EffectV::Complete {
                call_id: calls[i].id,
                packet: last_word(
                    calls[i].id,
                    calls[i].route,
                    "screenshot route deadline elapsed"@,
                ),
            },
        ),
{
    let gone = |c: CallV| c.route.deadline <= now;
    let reason = "screenshot route deadline elapsed"@;
    lemma_kept_by_filter(calls, gone, i);
    let k = choose|k: int| 0 <= k < calls.filter(gone).len() && #[trigger] calls.filter(gone)[k] == calls[i];
    lemma_endings_hold(calls.filter(gone), reason, k);
    let own = ending(calls[i], reason, true);
    assert(own.contains(own.last())) by {
        assert(own[own.len() - 1] == own.last());
    }
}

proof fn lemma_kept_by_filter(calls: Seq<CallV>, keep: spec_fn(CallV) -> bool, i: int)
    requires
        0 <= i < calls.len(),
        keep(calls[i]),
    ensures
        exists|k: int| 0 <= k < calls.filter(keep).len() && #[trigger] calls.filter(keep)[k] == calls[i],
    decreases calls.len(),
{
    reveal(Seq::filter);
    let rest = calls.drop_last();
    if i < rest.len() {
        lemma_kept_by_filter(rest, keep, i);
        let k = choose|k: int| 0 <= k < rest.filter(keep).len() && #[trigger] rest.filter(keep)[k] == rest[i];
        assert(calls.filter(keep)[k] == calls[i]);
    } else {
        assert(calls.filter(keep)[calls.filter(keep).len() - 1] == calls[i]);
    }
}

// ---------------------------------------------------------------------------
// Receiving
// ---------------------------------------------------------------------------

/// The limits: at most four calls, at most 64 MiB that are admitted together, at
/// most 32 MiB of one picture, and at most one chunk of 64 KiB that is not
/// acknowledged yet.
pub proof fn law_limits(calls: Seq<CallV>, i: int)
    requires
        sound(calls),
        0 <= i < calls.len(),
    ensures
        calls.len() <= 4,
        admitted(calls) <= 64 * 1024 * 1024,
        announced(calls[i].route) <= 32 * 1024 * 1024,
        calls[i].route.offset <= announced(calls[i].route),
        calls[i].route.phase matches Phase::Chunk(end) ==> 0 < end - calls[i].route.offset <= 64
            * 1024 && end <= announced(calls[i].route),
{
    assert(sound_route(calls[i].route));
}

/// A begin forgets an earlier status first: neither its failure, whether its own
/// or because of a live attempt at the same operation, nor the route that it
/// leaves can show the status as an outcome.
pub proof fn law_a_begin_forgets_the_status(
    calls: Seq<CallV>,
    socket: u64,
    packet: PacketV,
    intent_fits: bool,
    writers: Seq<u64>,
    now: u64,
)
    requires
        sound(calls),
        routed(calls, packet.call_id),
        bound(route(calls, packet.call_id), socket, packet),
        packet.why == "begin"@,
        route(calls, packet.call_id).phase == Phase::AwaitingBegin || route(
            calls,
            packet.call_id,
        ).phase == Phase::Ready,
    ensures
        ({
            let id = packet.call_id;
            let step = source_step(calls, socket, packet, intent_fits, writers, now);
            &&& routed(step.calls, id) ==> route(step.calls, id).result is None
            &&& forall|e: EffectV| #[trigger]
                step.effects.contains(e) ==> match e {
                    EffectV::Complete { call_id, packet } => call_id == id ==> packet.text_at(
                        "why"@,
                    ) == Some("rejected"@),
                    _ => true,
                }
        }),
{
    let id = packet.call_id;
    let i = index(calls, id);
    let me = calls[i];
    let objected = first_objection(calls, me, packet);
    if objected is None {
        lemma_an_unopposed_begin_forgets(calls, socket, packet, intent_fits, writers, now);
    } else {
        let cleared = begun(me.route);
        let call = CallV { id, route: cleared };
        let step = source_step(calls, socket, packet, intent_fits, writers, now);
        assert(sound_route(me.route));
        lemma_words();
        law_ending_keeps_routes_sound(calls, id, objected->0, true);
        lemma_writerless(calls, id, cleared);
        lemma_writerless_routes(calls, id, cleared);
        lemma_completes_with(call, objected->0);
        lemma_result_value(id, cleared, "rejected"@, objected);
        assert(step.effects == ending(call, objected->0, true));
    }
}

/// A begin to which no live attempt objects forgets an earlier status.
proof fn lemma_an_unopposed_begin_forgets(
    calls: Seq<CallV>,
    socket: u64,
    packet: PacketV,
    intent_fits: bool,
    writers: Seq<u64>,
    now: u64,
)
    requires
        sound(calls),
        routed(calls, packet.call_id),
        bound(route(calls, packet.call_id), socket, packet),
        packet.why == "begin"@,
        first_objection(calls, calls[index(calls, packet.call_id)], packet) is None,
        route(calls, packet.call_id).phase == Phase::AwaitingBegin || route(
            calls,
            packet.call_id,
        ).phase == Phase::Ready,
    ensures
        ({
            let id = packet.call_id;
            let step = source_step(calls, socket, packet, intent_fits, writers, now);
            &&& routed(step.calls, id) ==> route(step.calls, id).result is None
            &&& forall|e: EffectV| #[trigger]
                step.effects.contains(e) ==> match e {
                    EffectV::Complete { call_id, packet } => call_id == id ==> packet.text_at(
                        "why"@,
                    ) == Some("rejected"@),
                    _ => true,
                }
        }),
{
    let id = packet.call_id;
    let i = index(calls, id);
    let me = calls[i];
    assert(sound_route(me.route));
    let elsewhere = admitted(bystanders(calls, me));
    let ruled = ruling(me.route, packet, elsewhere, intent_fits);
    let rest = rerouted(calls, id, ruled.route);
    let step = source_step(calls, socket, packet, intent_fits, writers, now);
    lemma_words();
    assert(rest[i].id == id);
    assert forall|k: int| 0 <= k < calls.len() && k != i implies #[trigger] calls[k].id != id by {
        assert(calls[k].id == calls[i].id ==> k == i);
    }
    assert(forall|k: int| 0 <= k < rest.len() && k != i ==> #[trigger] rest[k].id != id);
    assert(index(rest, id) == i);
    assert(!routed(rest.remove(i), id)) by {
        assert forall|k: int| 0 <= k < rest.remove(i).len() implies #[trigger] rest.remove(i)[k].id
            != id by {
            assert(rest.remove(i)[k] == if k < i {
                rest[k]
            } else {
                rest[k + 1]
            });
        }
    }
    assert forall|reason: Seq<char>| #[trigger]
        last_word(id, ruled.route, reason).text_at("why"@) == Some("rejected"@) by {
        lemma_result_value(id, ruled.route, "rejected"@, Some(reason));
    }
    match ruled.outcome {
        Outcome::Violate(reason) => {},
        Outcome::End(reason) => {
            lemma_completes_with(rest[i], reason);
        },
        Outcome::Forward(phase, fields) => {
            if ruled.route.writer is None && writers.len() != 1 {
                lemma_completes_with(
                    rest[i],
                    "screenshot requires exactly one connected local Wicket"@,
                );
            } else {
                let after = step.calls;
                assert(after[i].id == id);
                assert forall|k: int| 0 <= k < after.len() && k != i implies #[trigger] after[k].id
                    != id by {
                    assert(calls[k].id != id);
                }
                assert(index(after, id) == i);
                assert forall|e: EffectV| #[trigger] step.effects.contains(e) implies match e {
                    EffectV::Complete { call_id, packet } => call_id != id,
                    _ => true,
                } by {
                    let n = step.effects.index_of(e);
                    if n < replacements(calls, me).len() {
                        assert(replacements(calls, me)[n] == e);
                        lemma_replacements_are_of_rivals(calls, me, e);
                    }
                }
            }
        },
    }
}

/// The only completion of an ending is that of its call.
proof fn lemma_completes_with(call: CallV, reason: Seq<char>)
    ensures
        forall|e: EffectV| #[trigger]
            ending(call, reason, true).contains(e) ==> match e {
                EffectV::Complete { call_id, packet } => call_id == call.id && packet == last_word(
                    call.id,
                    call.route,
                    reason,
                ),
                _ => true,
            },
{
}

/// Replacing completes rivals only, with a rejection that is sent to their
/// sources.
proof fn lemma_replacements_are_of_rivals(calls: Seq<CallV>, me: CallV, e: EffectV)
    requires
        replacements(calls, me).contains(e),
    ensures
        match e {
            EffectV::Complete { call_id, packet } => call_id != me.id && packet.text_at("why"@)
                == Some("rejected"@),
            EffectV::Send { socket, packet } => packet.text_at("why"@) == Some("rejected"@),
            EffectV::Close { socket } => false,
            EffectV::Observe(fact) => quiet(fact),
        },
    decreases calls.len(),
{
    let before = replacements(calls.drop_last(), me);
    let k = replacements(calls, me).index_of(e);
    if k < before.len() {
        assert(before[k] == e);
        lemma_replacements_are_of_rivals(calls.drop_last(), me, e);
    } else {
        let c = calls.last();
        lemma_result_value(
            c.id,
            c.route,
            "rejected"@,
            Some("temporary receive superseded by a fresh retry"@),
        );
        assert(replacement(c, me.id)[k - before.len()] == e);
        lemma_quiet_words();
    }
}

/// While a chunk is not acknowledged, every command of the attempt but a cancel
/// breaks the protocol: no route moves, and the socket of the source is closed.
pub proof fn law_one_chunk_at_a_time(
    calls: Seq<CallV>,
    socket: u64,
    packet: PacketV,
    intent_fits: bool,
    writers: Seq<u64>,
    now: u64,
)
    requires
        routed(calls, packet.call_id),
        bound(route(calls, packet.call_id), socket, packet),
        route(calls, packet.call_id).phase is Chunk,
        packet.why == "chunk"@ || packet.why == "finish"@,
        packet.attempt_id == route(calls, packet.call_id).attempt,
    ensures
        source_step(calls, socket, packet, intent_fits, writers, now) == (Step {
            calls,
            effects: violation(socket, "screenshot command violates phase or one-chunk credit"@),
        }),
{
    let i = index(calls, packet.call_id);
    reveal_strlit("begin");
    reveal_strlit("chunk");
    reveal_strlit("finish");
    reveal_strlit("cancel");
    assert("begin"@[0] != "chunk"@[0]);
    assert("finish"@[0] != "cancel"@[0]);
    assert("begin"@.len() == 5 && "chunk"@.len() == 5 && "finish"@.len() == 6 && "cancel"@.len()
        == 6);
    assert(rerouted(calls, packet.call_id, calls[i].route) =~= calls);
}

/// A finish is forwarded only once every announced byte is acknowledged; before
/// that it breaks the protocol.
pub proof fn law_a_finish_needs_every_byte(
    calls: Seq<CallV>,
    socket: u64,
    packet: PacketV,
    intent_fits: bool,
    writers: Seq<u64>,
    now: u64,
)
    requires
        routed(calls, packet.call_id),
        bound(route(calls, packet.call_id), socket, packet),
        route(calls, packet.call_id).phase == Phase::Ready,
        route(calls, packet.call_id).offset != announced(route(calls, packet.call_id)),
        packet.why == "finish"@,
        packet.attempt_id == route(calls, packet.call_id).attempt,
    ensures
        source_step(calls, socket, packet, intent_fits, writers, now) == (Step {
            calls,
            effects: violation(
                socket,
                "finish requires exactly the admitted bytes and no extra fields"@,
            ),
        }),
{
    let i = index(calls, packet.call_id);
    reveal_strlit("begin");
    reveal_strlit("chunk");
    reveal_strlit("finish");
    assert("begin"@.len() == 5 && "chunk"@.len() == 5 && "finish"@.len() == 6);
    assert(rerouted(calls, packet.call_id, calls[i].route) =~= calls);
}

/// An outstanding finish cannot be replaced: a fresh attempt at the same
/// operation ends, without an earlier status to show, and every other route
/// stays as it is.
pub proof fn law_a_finish_cannot_be_replaced(
    calls: Seq<CallV>,
    socket: u64,
    packet: PacketV,
    intent_fits: bool,
    writers: Seq<u64>,
    now: u64,
    k: int,
)
    requires
        sound(calls),
        routed(calls, packet.call_id),
        bound(route(calls, packet.call_id), socket, packet),
        packet.why == "begin"@,
        0 <= k < calls.len(),
        rival(calls[k], calls[index(calls, packet.call_id)]),
        calls[k].route.finish_sent,
    ensures
        source_step(calls, socket, packet, intent_fits, writers, now).calls == removed(
            calls,
            packet.call_id,
        ),
        exists|reason: Seq<char>|
            source_step(calls, socket, packet, intent_fits, writers, now).effects == #[trigger] ending(
                CallV { id: packet.call_id, route: begun(route(calls, packet.call_id)) },
                reason,
                true,
            ),
{
    let id = packet.call_id;
    let me = calls[index(calls, id)];
    lemma_objects(calls, me, packet, k);
    let reason = first_objection(calls, me, packet)->0;
    lemma_writerless(calls, id, begun(me.route));
    lemma_writerless_routes(calls, id, begun(me.route));
    assert(source_step(calls, socket, packet, intent_fits, writers, now).effects == ending(
        CallV { id, route: begun(me.route) },
        reason,
        true,
    ));
}

/// The calls object where one of them does.
proof fn lemma_objects(calls: Seq<CallV>, me: CallV, packet: PacketV, k: int)
    requires
        0 <= k < calls.len(),
        rival(calls[k], me),
        objection(calls[k].route, packet) is Some,
    ensures
        first_objection(calls, me, packet) is Some,
    decreases calls.len(),
{
    if k < calls.len() - 1 {
        lemma_objects(calls.drop_last(), me, packet, k);
    }
}

/// What is forwarded to the writer carries the binding that the router itself has
/// made: the project, the operation, the attempt and the two sockets of the route.
pub proof fn law_commands_carry_the_binding(
    calls: Seq<CallV>,
    me: CallV,
    ruled: RouteV,
    why: Seq<char>,
    phase: Phase,
    fields: Val,
    writer: u64,
    now: u64,
)
    requires
        fields is Object,
        ruled.sequence < u64::MAX,
    ensures
        ({
            let effects = forward_step(calls, me, ruled, why, phase, fields, writer, now).effects;
            &&& effects.last() matches EffectV::Send { socket, packet } && {
                &&& socket == writer
                &&& packet.text_at("why"@) == Some(why)
                &&& packet.uint_at("sequence"@) == Some((ruled.sequence + 1) as u64)
                &&& packet.at("binding"@) == Val::empty_object().with(
                    "operation"@,
                    operation_value(ruled.slug, ruled.operation),
                ).with(
                    "attempt"@,
                    Val::empty_object().with("call_id"@, Val::Text(me.id)).with(
                        "attempt_id"@,
                        Val::Text(ruled.attempt),
                    ),
                ).with("source_socket"@, Val::Unsigned(ruled.source)).with(
                    "writer_socket"@,
                    Val::Unsigned(writer),
                )
            }
        }),
{
    lemma_words();
}

/// A fresh attempt replaces a temporary receive without cancelling the
/// operation: of what is sent, only the begin itself goes beyond the rejections
/// of the replaced attempts.
pub proof fn law_replacing_does_not_cancel(
    calls: Seq<CallV>,
    me: CallV,
    ruled: RouteV,
    phase: Phase,
    fields: Val,
    writer: u64,
    now: u64,
    e: EffectV,
)
    requires
        fields is Object,
        forward_step(calls, me, ruled, "begin"@, phase, fields, writer, now).effects.contains(e),
    ensures
        e matches EffectV::Send { socket, packet } ==> packet.text_at("why"@) == Some("rejected"@)
            || (socket == writer && packet.text_at("why"@) == Some("begin"@)),
{
    let effects = forward_step(calls, me, ruled, "begin"@, phase, fields, writer, now).effects;
    let k = effects.index_of(e);
    lemma_words();
    if k < replacements(calls, me).len() {
        assert(replacements(calls, me)[k] == e);
        lemma_replacements_are_of_rivals(calls, me, e);
    }
}

/// A packet about one call leaves the others alone, but for the live attempts at
/// the same operation that a begin replaces.
pub proof fn law_other_calls_stay(
    calls: Seq<CallV>,
    socket: u64,
    packet: PacketV,
    intent_fits: bool,
    writers: Seq<u64>,
    now: u64,
    k: int,
)
    requires
        sound(calls),
        0 <= k < calls.len(),
        calls[k].id != packet.call_id,
        routed(calls, packet.call_id) && packet.why == "begin"@ ==> !rival(
            calls[k],
            calls[index(calls, packet.call_id)],
        ),
    ensures
        source_step(calls, socket, packet, intent_fits, writers, now).calls.contains(calls[k]),
{
    let id = packet.call_id;
    let step = source_step(calls, socket, packet, intent_fits, writers, now);
    if !routed(calls, id) {
        assert(calls.contains(calls[k]));
    } else {
        let i = index(calls, id);
        let me = calls[i];
        let ruled = ruling(me.route, packet, admitted(bystanders(calls, me)), intent_fits);
        let rest = rerouted(calls, id, ruled.route);
        assert(calls.contains(calls[k]));
        assert(rest[k] == calls[k]);
        assert(rest.contains(calls[k]));
        lemma_writerless_routes(calls, id, ruled.route);
        lemma_writerless_routes(calls, id, begun(me.route));
        let gone = calls.remove(i);
        assert(gone.contains(calls[k])) by {
            if k < i {
                assert(gone[k] == calls[k]);
            } else {
                assert(gone[k - 1] == calls[k]);
            }
        }
        if ruled.outcome is Forward && bound(me.route, socket, packet) && !stale(me.route, packet) {
            if step.calls.len() == calls.len() {
                assert(step.calls[k] == calls[k] || step.calls == calls);
            }
        }
    }
}

proof fn lemma_writerless_routes(calls: Seq<CallV>, id: Seq<char>, ruled: RouteV)
    requires
        sound(calls),
        routed(calls, id),
    ensures
        end_step(rerouted(calls, id, ruled), id, ""@, true).calls == calls.remove(
            index(calls, id),
        ),
        index(rerouted(calls, id, ruled), id) == index(calls, id),
        routed(rerouted(calls, id, ruled), id),
{
    let i = index(calls, id);
    let rest = rerouted(calls, id, ruled);
    assert(rest[i].id == id);
    let j = index(rest, id);
    assert(calls[j].id == calls[i].id);
    assert(rest.remove(i) =~= calls.remove(i));
}

// ---------------------------------------------------------------------------
// Outcomes
// ---------------------------------------------------------------------------

/// What is relayed to the source names its call, operation and attempt, and
/// carries neither the binding nor the sequence of the reply.
pub proof fn law_a_relay_is_about_the_call(
    id: Seq<char>,
    route: RouteV,
    data: Val,
    why: Seq<char>,
    requested_fits: bool,
)
    requires
        answered(id, route, data, why, requested_fits).answer is Relay,
    ensures
        ({
            let result = answered(id, route, data, why, requested_fits).answer->Relay_0;
            &&& result.text_at("call_id"@) == Some(id)
            &&& result.text_at("operation_id"@) == Some(route.operation)
            &&& result.text_at("attempt_id"@) == Some(route.attempt)
            &&& result.get("binding"@) is None
            &&& result.get("sequence"@) is None
        }),
{
    lemma_words();
    lemma_result_value(id, route, why, None);
    lemma_result_value(id, route, "unresolved"@, None);
}

/// An outcome, or a status, that is relayed to the source is kept: it is exactly
/// what the response of the tool has to hold.
pub proof fn law_a_relayed_outcome_is_kept(
    calls: Seq<CallV>,
    socket: u64,
    data: Val,
    requested_fits: bool,
    now: u64,
    output: Seq<char>,
)
    requires
        sound(calls),
        data.at("binding"@).at("attempt"@).text_at("call_id"@) matches Some(id) && routed(calls, id)
            && route(calls, id).writer == Some(socket) && reply_error(
            id,
            route(calls, id),
            data,
        ) is None && {
            let reply = answered(
                id,
                route(calls, id),
                data,
                data.text_at("why"@)->0,
                requested_fits,
            );
            &&& reply.answer is Relay
            &&& keeps_result(reply.route, data.text_at("why"@)->0)
            &&& held_output(output) == Some(reply.answer->Relay_0)
        },
    ensures
        ({
            let id = data.at("binding"@).at("attempt"@).text_at("call_id"@)->0;
            let step = writer_step(calls, socket, data, requested_fits, now);
            &&& step.effects == seq![
                EffectV::Send { socket: route(calls, id).source, packet: held_output(output)->0 },
            ]
            &&& route(step.calls, id).result == held_output(output)
            &&& tool_error(step.calls, id, held_output(output)) is None
        }),
{
    let id = data.at("binding"@).at("attempt"@).text_at("call_id"@)->0;
    let i = index(calls, id);
    let step = writer_step(calls, socket, data, requested_fits, now);
    assert(step.calls[i].id == id);
    let j = index(step.calls, id);
    assert(calls[j].id == calls[i].id);
    law_same_is_reflexive(held_output(output)->0);
}

/// A terminal outcome comes from the writer alone, and only with a receipt that
/// belongs to the operation; the receipt is relayed as it is.
pub proof fn law_an_outcome_has_a_receipt(
    id: Seq<char>,
    route: RouteV,
    data: Val,
    why: Seq<char>,
    requested_fits: bool,
)
    requires
        why == "stored"@ || why == "published"@ || why == "failed"@ || why == "aborted"@,
        answered(id, route, data, why, requested_fits).answer is Relay,
    ensures
        receipt_ok(
            data.at("receipt"@),
            why,
            route.slug,
            route.operation,
            route.intent,
            route.destination,
            requested_fits,
        ),
        answered(id, route, data, why, requested_fits).answer->Relay_0.at("receipt"@) == data.at(
            "receipt"@,
        ),
        answered(id, route, data, why, requested_fits).answer->Relay_0.text_at("why"@) == Some(why),
{
    lemma_words();
    lemma_result_value(id, route, why, None);
    reveal_strlit("ready");
    reveal_strlit("ack");
    reveal_strlit("unknown");
    reveal_strlit("receiving");
    reveal_strlit("stored");
    reveal_strlit("published");
    reveal_strlit("failed");
    reveal_strlit("aborted");
    assert("ready"@.len() == 5 && "ack"@.len() == 3 && "unknown"@.len() == 7 && "receiving"@.len()
        == 9 && "stored"@.len() == 6 && "published"@.len() == 9 && "failed"@.len() == 6
        && "aborted"@.len() == 7);
    assert("published"@[0] != "receiving"@[0]);
    assert("aborted"@[0] != "unknown"@[0]);
}

/// A cancellation that was asked for is never itself reported as one: without the
/// word of the writer a route ends rejected or unresolved.
pub proof fn law_a_cancel_is_not_an_abort(id: Seq<char>, route: RouteV, reason: Seq<char>)
    requires
        route.result is None,
    ensures
        last_word(id, route, reason).text_at("why"@) != Some("aborted"@),
{
    lemma_words();
    lemma_result_value(id, route, "unresolved"@, Some(reason));
    lemma_result_value(id, route, "rejected"@, Some(reason));
}

/// Once a finish was forwarded, nothing can be reported as rejected: neither the
/// refusal of a command nor the loss of a socket shows that nothing was
/// published.
pub proof fn law_after_a_finish_nothing_is_rejected(
    id: Seq<char>,
    route: RouteV,
    data: Val,
    why: Seq<char>,
    requested_fits: bool,
    reason: Seq<char>,
)
    requires
        route.finish_sent,
        route.result is None,
    ensures
        answered(id, route, data, why, requested_fits).answer matches Answer::Relay(result)
            ==> result.text_at("why"@) != Some("rejected"@),
        last_word(id, route, reason).text_at("why"@) == Some("unresolved"@),
{
    lemma_words();
    lemma_result_value(id, route, why, None);
    lemma_result_value(id, route, "unresolved"@, None);
    lemma_result_value(id, route, "unresolved"@, Some(reason));
    reveal_strlit("ready");
    reveal_strlit("ack");
    reveal_strlit("unknown");
    reveal_strlit("receiving");
    reveal_strlit("stored");
    reveal_strlit("published");
    reveal_strlit("failed");
    reveal_strlit("aborted");
    reveal_strlit("rejected");
    assert("ready"@.len() == 5 && "ack"@.len() == 3 && "unknown"@.len() == 7 && "receiving"@.len()
        == 9 && "stored"@.len() == 6 && "published"@.len() == 9 && "failed"@.len() == 6
        && "aborted"@.len() == 7 && "rejected"@.len() == 8);
}

/// The response of a tool that holds the packet that was relayed is taken.
pub proof fn law_the_relayed_packet_is_the_result(
    calls: Seq<CallV>,
    id: Seq<char>,
    output: Seq<char>,
    relayed: Val,
)
    requires
        routed(calls, id),
        route(calls, id).result == Some(relayed),
        held_output(output) == Some(relayed),
    ensures
        tool_error(calls, id, held_output(output)) is None,
{
    law_same_is_reflexive(relayed);
}

// ---------------------------------------------------------------------------
// Observations
// ---------------------------------------------------------------------------

/// An observation that holds no bytes of a picture: it has no other members than
/// the fixed ones of a rejection, and its context has none but identities,
/// sockets and the disposition.
pub open spec fn quiet(fact: Val) -> bool {
    &&& fact matches Val::Object(m) && m.dom().subset_of(
        set!["who"@, "what"@, "why"@, "how"@, "with"@],
    )
    &&& fact.at("with"@) matches Val::Object(m) && m.dom().subset_of(
        set![
            "socket"@,
            "call_id"@,
            "operation_id"@,
            "source_socket"@,
            "writer_socket"@,
            "disposition"@,
            "replacement_call_id"@,
        ],
    )
}

proof fn lemma_quiet_words()
    ensures
        "with"@ != "who"@,
        "with"@ != "why"@,
        "with"@ != "how"@,
{
    reveal_strlit("with");
    reveal_strlit("who");
    reveal_strlit("why");
    reveal_strlit("how");
    assert("with"@.len() == 4 && "who"@.len() == 3 && "why"@.len() == 3 && "how"@.len() == 3);
}

proof fn lemma_quiet_ending(call: CallV, reason: Seq<char>, relay: bool, e: EffectV)
    requires
        ending(call, reason, relay).contains(e),
    ensures
        e matches EffectV::Observe(fact) ==> quiet(fact),
{
    lemma_quiet_words();
}

proof fn lemma_quiet_endings(calls: Seq<CallV>, reason: Seq<char>, e: EffectV)
    requires
        endings(calls, reason).contains(e),
    ensures
        e matches EffectV::Observe(fact) ==> quiet(fact),
    decreases calls.len(),
{
    let front = endings(calls.drop_last(), reason);
    let k = endings(calls, reason).index_of(e);
    if k < front.len() {
        assert(front[k] == e);
        lemma_quiet_endings(calls.drop_last(), reason, e);
    } else {
        assert(ending(calls.last(), reason, true)[k - front.len()] == e);
        lemma_quiet_ending(calls.last(), reason, true, e);
    }
}

/// No bytes of a picture enter an observation, whatever packet comes.
pub proof fn law_observations_are_quiet(
    calls: Seq<CallV>,
    socket: u64,
    data: Val,
    sizes: Sizes,
    writers: Seq<u64>,
    now: u64,
    e: EffectV,
)
    requires
        packet_step(calls, socket, data, sizes, writers, now).effects.contains(e)
            || disconnect_step(calls, socket).effects.contains(e) || expire_step(
            calls,
            now,
        ).effects.contains(e),
    ensures
        e matches EffectV::Observe(fact) ==> quiet(fact),
{
    lemma_quiet_words();
    if disconnect_step(calls, socket).effects.contains(e) {
        lemma_quiet_endings(
            calls.filter(|c: CallV| uses(c, socket)),
            "screenshot route endpoint disconnected"@,
            e,
        );
    } else if expire_step(calls, now).effects.contains(e) {
        lemma_quiet_endings(
            calls.filter(|c: CallV| c.route.deadline <= now),
            "screenshot route deadline elapsed"@,
            e,
        );
    } else if sizes.packet && data.get("binding"@) is None && source_packet(data) is Some {
        lemma_quiet_source(calls, socket, source_packet(data)->0, sizes.intent, writers, now, e);
    }
}

proof fn lemma_quiet_source(
    calls: Seq<CallV>,
    socket: u64,
    packet: PacketV,
    intent_fits: bool,
    writers: Seq<u64>,
    now: u64,
    e: EffectV,
)
    requires
        source_step(calls, socket, packet, intent_fits, writers, now).effects.contains(e),
    ensures
        e matches EffectV::Observe(fact) ==> quiet(fact),
{
    lemma_quiet_words();
    let id = packet.call_id;
    if routed(calls, id) {
        let i = index(calls, id);
        let me = calls[i];
        let effects = source_step(calls, socket, packet, intent_fits, writers, now).effects;
        let ruled = ruling(me.route, packet, admitted(bystanders(calls, me)), intent_fits);
        let rest = rerouted(calls, id, ruled.route);
        assert forall|c: CallV, reason: Seq<char>|
            effects == #[trigger] ending(c, reason, true) implies (e matches EffectV::Observe(fact)
            ==> quiet(fact)) by {
            lemma_quiet_ending(c, reason, true, e);
        }
        if e is Observe && ruled.outcome is Forward && replacements(calls, me).contains(e) {
            lemma_replacements_are_of_rivals(calls, me, e);
        }
        if bound(me.route, socket, packet) && !stale(me.route, packet) {
            if let Outcome::Forward(phase, fields) = ruled.outcome {
                let k = effects.index_of(e);
                if k < replacements(calls, me).len() && effects[k] == replacements(calls, me)[k] {
                    assert(replacements(calls, me).contains(replacements(calls, me)[k]));
                }
            }
        }
    }
}

} // verus!
