//! What callers, sockets and Wickets can count on.

use crate::bus::laws::{
    calls_tidy, claims_tidy, lemma_claim_place, lemma_running_place, lemma_socket_place,
    lemma_wicket_place, sockets_tidy, tidy, wickets_tidy,
};
use crate::bus::model::{
    accepted, all_serving, call_timeout_turn, call_turn, claim_place, completion, connect_turn,
    disconnected_turn, dispatch_value, effect_turn, effects_turn, ensured_turn, exited_turn,
    hang_ups, packet_text, query_turn, response_turn, running, running_place, screenshot_turn,
    serving, socket_place, spawn_failed_turn, spawn_timeout_turn, spawned_turn, steered_turn,
    tick_turn, tool_sets, tools_text, wicket_place, ActionV, BusV, PendingV, QueuedV, ResultV,
    RunningV, SocketV, TimerV, ToolCallV, WicketState, WicketV,
};
use crate::bus::tools::{
    all_offered, firsts, law_every_function_is_listed_once, listed, listing, listings, offered,
    ListedV, ToolSet,
};
use crate::json::Val;
use crate::screenshot::model::{
    disconnect_step, end_step, expire_step, packet_step, register_error, registered, removed, route,
    routed, tool_error, EffectV, Sizes,
};
use crate::serial::{compact, indented};
use vstd::prelude::*;

verus! {

// ---------------------------------------------------------------------------
// The functions that there are
// ---------------------------------------------------------------------------

/// Whether a listed value is a function under a client: its three texts and
/// nothing else.
pub open spec fn is_listing(v: Val, tool: ListedV) -> bool {
    &&& v matches Val::Object(m)
    &&& m.dom() =~= set!["who"@, "f"@, "description"@]
    &&& m["who"@] == Val::Text(tool.who)
    &&& m["f"@] == Val::Text(tool.f)
    &&& m["description"@] == Val::Text(tool.description)
}

/// Whether a list has a function under the name of a client.
pub open spec fn has_function(list: Seq<Val>, who: Seq<char>, f: Seq<char>) -> bool {
    exists|j: int|
        0 <= j < list.len() && (#[trigger] list[j]).text_at("who"@) == Some(who) && list[j].text_at(
            "f"@,
        ) == Some(f)
}

/// Whether a value is a function that some socket offers.
pub open spec fn is_offered(v: Val, sockets: Seq<SocketV>) -> bool {
    exists|i: int, k: int|
        0 <= i < sockets.len() && #[trigger] offers(sockets[i], k) && is_listing(
            v,
            sockets[i].tools->0[k],
        )
}

/// Whether a socket offers a function at a place.
pub open spec fn offers(s: SocketV, k: int) -> bool {
    s.tools is Some && 0 <= k < s.tools->0.len()
}

/// Whether a list holds the functions of the sockets: each of them under the name
/// of its client, no other, and none twice.
pub open spec fn lists_the_functions(list: Seq<Val>, sockets: Seq<SocketV>) -> bool {
    &&& forall|i: int, k: int|
        0 <= i < sockets.len() && #[trigger] offers(sockets[i], k) ==> has_function(
            list,
            sockets[i].tools->0[k].who,
            sockets[i].tools->0[k].f,
        )
    &&& forall|j: int| 0 <= j < list.len() ==> is_offered(#[trigger] list[j], sockets)
    &&& forall|a: int, b: int|
        0 <= a < b < list.len() ==> (#[trigger] list[a]).text_at("who"@) != (
        #[trigger] list[b]).text_at("who"@) || list[a].text_at("f"@) != list[b].text_at("f"@)
}

/// Whether a text shows the functions of the sockets.
pub open spec fn shows_the_functions(text: Seq<char>, sockets: Seq<SocketV>) -> bool {
    exists|list: Seq<Val>|
        lists_the_functions(list, sockets) && text == match #[trigger] indented(Val::Array(list)) {
            Some(t) => t,
            None => "[]"@,
        }
}

spec fn is_of_some(tool: ListedV, sockets: Seq<SocketV>) -> bool {
    exists|i: int, k: int|
        0 <= i < sockets.len() && #[trigger] offers(sockets[i], k) && sockets[i].tools->0[k] == tool
}

proof fn lemma_offered_by_all(sockets: Seq<SocketV>)
    ensures
        forall|i: int, k: int|
            0 <= i < sockets.len() && #[trigger] offers(sockets[i], k) ==> all_offered(
                tool_sets(sockets),
            ).contains(sockets[i].tools->0[k]),
        forall|n: int|
            0 <= n < all_offered(tool_sets(sockets)).len() ==> is_of_some(
                #[trigger] all_offered(tool_sets(sockets))[n],
                sockets,
            ),
    decreases sockets.len(),
{
    let all = all_offered(tool_sets(sockets));
    if sockets.len() > 0 {
        let rest = sockets.drop_last();
        let last = sockets.last();
        let fewer = all_offered(tool_sets(rest));
        lemma_offered_by_all(rest);
        if last.tools is Some {
            assert(tool_sets(sockets).drop_last() =~= tool_sets(rest));
            assert(all == fewer + last.tools->0);
        }
        assert forall|i: int, k: int|
            0 <= i < sockets.len() && #[trigger] offers(sockets[i], k) implies all.contains(
            sockets[i].tools->0[k],
        ) by {
            let tool = sockets[i].tools->0[k];
            if i < rest.len() {
                assert(offers(rest[i], k));
                let n = fewer.index_of(tool);
                assert(all[n] == tool);
            } else {
                assert(all[fewer.len() + k] == tool);
            }
        }
        assert forall|n: int| 0 <= n < all.len() implies is_of_some(#[trigger] all[n], sockets) by {
            if n < fewer.len() {
                assert(is_of_some(fewer[n], rest));
                let (i, k) = choose|i: int, k: int|
                    0 <= i < rest.len() && #[trigger] offers(rest[i], k) && rest[i].tools->0[k]
                        == fewer[n];
                assert(offers(sockets[i], k) && sockets[i].tools->0[k] == all[n]);
            } else {
                let k = n - fewer.len();
                assert(offers(sockets[sockets.len() - 1], k));
                assert(sockets[sockets.len() - 1].tools->0[k] == all[n]);
            }
        }
    }
}

proof fn lemma_listing(tool: ListedV)
    ensures
        is_listing(listing(tool), tool),
        listing(tool).text_at("who"@) == Some(tool.who),
        listing(tool).text_at("f"@) == Some(tool.f),
{
    reveal_strlit("who");
    reveal_strlit("f");
    reveal_strlit("description");
    assert("who"@.len() == 3 && "f"@.len() == 1 && "description"@.len() == 11);
}

proof fn lemma_tools_are_shown(sockets: Seq<SocketV>)
    ensures
        lists_the_functions(listings(firsts(all_offered(tool_sets(sockets)))), sockets),
{
    let all = all_offered(tool_sets(sockets));
    let once = firsts(all);
    let list = listings(once);
    lemma_offered_by_all(sockets);
    law_every_function_is_listed_once(all);
    assert forall|j: int| 0 <= j < once.len() implies is_listing(#[trigger] list[j], once[j])
        && list[j].text_at("who"@) == Some(once[j].who) && list[j].text_at("f"@) == Some(
        once[j].f,
    ) by {
        lemma_listing(once[j]);
    }
    assert forall|i: int, k: int|
        0 <= i < sockets.len() && #[trigger] offers(sockets[i], k) implies has_function(
        list,
        sockets[i].tools->0[k].who,
        sockets[i].tools->0[k].f,
    ) by {
        let tool = sockets[i].tools->0[k];
        let n = all.index_of(tool);
        assert(listed(once, all[n]));
        let j = choose|j: int|
            0 <= j < once.len() && (#[trigger] once[j]).who == tool.who && once[j].f == tool.f;
        assert(list[j].text_at("who"@) == Some(tool.who));
    }
    assert forall|j: int| 0 <= j < list.len() implies is_offered(#[trigger] list[j], sockets) by {
        assert(all.contains(once[j]));
        let n = all.index_of(once[j]);
        assert(is_of_some(all[n], sockets));
        let (i, k) = choose|i: int, k: int|
            0 <= i < sockets.len() && #[trigger] offers(sockets[i], k) && sockets[i].tools->0[k]
                == all[n];
        assert(offers(sockets[i], k) && is_listing(list[j], sockets[i].tools->0[k]));
    }
    assert forall|a: int, b: int| 0 <= a < b < list.len() implies (#[trigger] list[a]).text_at(
        "who"@,
    ) != (#[trigger] list[b]).text_at("who"@) || list[a].text_at("f"@) != list[b].text_at("f"@) by {
        assert(!(once[a].who == once[b].who && once[a].f == once[b].f));
    }
}

/// Who asks what functions there are is shown the functions of all sockets, each
/// under the name of its client, as soon as the Wicket at home is not starting.
pub proof fn law_every_connected_function_is_shown(bus: BusV, ticket: u64, h: int)
    requires
        tidy(bus),
        0 <= h < bus.wickets.len(),
        bus.wickets[h].host == "localhost"@,
        bus.wickets[h].state != WicketState::Starting,
    ensures
        ({
            let turn = query_turn(bus, ticket);
            &&& turn.bus == bus
            &&& turn.actions.len() == 1
            &&& turn.actions[0] matches ActionV::Tools(t, text)
            &&& t == ticket
            &&& shows_the_functions(text, bus.sockets)
        }),
{
    lemma_wicket_at(bus.wickets, h);
    lemma_tools_are_shown(bus.sockets);
    let list = listings(firsts(all_offered(tool_sets(bus.sockets))));
    assert(lists_the_functions(list, bus.sockets));
}

/// A list of functions grows at its end: what more sockets offer comes behind what
/// is listed, which stays as it is.
pub proof fn law_listings_grow_at_the_end(all: Seq<ListedV>, more: Seq<ListedV>)
    ensures
        listings(firsts(all)).is_prefix_of(listings(firsts(all + more))),
        listings(firsts(all)).len() <= all.len(),
    decreases more.len(),
{
    lemma_firsts_are_fewer(all);
    if more.len() == 0 {
        assert(all + more =~= all);
    } else {
        law_listings_grow_at_the_end(all, more.drop_last());
        assert((all + more).drop_last() =~= all + more.drop_last());
        let (a, b, c) = (firsts(all), firsts(all + more.drop_last()), firsts(all + more));
        let (x, y, z) = (listings(a), listings(b), listings(c));
        assert(x.is_prefix_of(y));
        assert forall|i: int| 0 <= i < x.len() implies x[i] == z[i] by {
            assert(y.subrange(0, x.len() as int)[i] == x[i]);
            assert(y[i] == z[i]);
        }
        assert(z.subrange(0, x.len() as int) =~= x);
    }
}

proof fn lemma_firsts_are_fewer(all: Seq<ListedV>)
    ensures
        firsts(all).len() <= all.len(),
    decreases all.len(),
{
    if all.len() > 0 {
        lemma_firsts_are_fewer(all.drop_last());
    }
}

/// The functions of one client are listed under its name, in their order; those of
/// several clients one client after the other.
pub proof fn law_functions_are_listed_under_their_client(set: ToolSet, a: Seq<SocketV>, b: Seq<SocketV>)
    ensures
        offered(set).len() == set.tools@.len(),
        forall|k: int|
            0 <= k < set.tools@.len() ==> (#[trigger] offered(set)[k]).who == set.who@ && offered(
                set,
            )[k].f == set.tools@[k].f@ && offered(set)[k].description == set.tools@[k].description@,
        all_offered(tool_sets(a + b)) == all_offered(tool_sets(a)) + all_offered(tool_sets(b)),
    decreases b.len(),
{
    if b.len() == 0 {
        assert(a + b =~= a);
        assert(all_offered(tool_sets(a + b)) =~= all_offered(tool_sets(a)) + all_offered(tool_sets(b)));
    } else {
        let rest = b.drop_last();
        law_functions_are_listed_under_their_client(set, a, rest);
        assert((a + b).drop_last() =~= a + rest);
        if b.last().tools is Some {
            assert(tool_sets(a + b).drop_last() =~= tool_sets(a + rest));
            assert(tool_sets(b).drop_last() =~= tool_sets(rest));
            assert(all_offered(tool_sets(a + b)) =~= all_offered(tool_sets(a)) + all_offered(
                tool_sets(b),
            ));
        }
    }
}

// ---------------------------------------------------------------------------
// Places
// ---------------------------------------------------------------------------

proof fn lemma_wicket_at(wickets: Seq<WicketV>, i: int)
    requires
        wickets_tidy(wickets),
        0 <= i < wickets.len(),
    ensures
        wicket_place(wickets, wickets[i].host) == Some(i),
{
    lemma_wicket_place(wickets, wickets[i].host);
}

proof fn lemma_claim_at(claims: Seq<ToolCallV>, i: int)
    requires
        claims_tidy(claims),
        0 <= i < claims.len(),
    ensures
        claim_place(claims, claims[i].call_id) == Some(i),
{
    lemma_claim_place(claims, claims[i].call_id);
}

proof fn lemma_running_at(calls: Seq<RunningV>, i: int)
    requires
        calls_tidy(calls),
        0 <= i < calls.len(),
    ensures
        running_place(calls, calls[i].call.call_id) == Some(i),
{
    lemma_running_place(calls, calls[i].call.call_id);
}

proof fn lemma_socket_at(sockets: Seq<SocketV>, next: u64, i: int)
    requires
        sockets_tidy(sockets, next),
        0 <= i < sockets.len(),
    ensures
        socket_place(sockets, sockets[i].id) == Some(i),
{
    lemma_socket_place(sockets, sockets[i].id);
}

/// Whether a socket is of a client at a place.
pub open spec fn serves(s: SocketV, who: Seq<char>, place: Seq<char>) -> bool {
    s.who == Some(who) && s.place == place
}

/// A call goes to the first socket of its client at its place, wherever that
/// stands; it goes nowhere only where there is none.
pub proof fn law_the_first_client_serves(
    sockets: Seq<SocketV>,
    who: Seq<char>,
    place: Seq<char>,
    i: int,
)
    requires
        0 <= i < sockets.len(),
        serves(sockets[i], who, place),
        forall|j: int| 0 <= j < i ==> !serves(#[trigger] sockets[j], who, place),
    ensures
        serving(sockets, who, place) == Some(sockets[i].id),
    decreases sockets.len(),
{
    let rest = sockets.drop_last();
    if i < rest.len() {
        assert forall|j: int| 0 <= j < i implies !serves(#[trigger] rest[j], who, place) by {
            assert(!serves(sockets[j], who, place));
        }
        law_the_first_client_serves(rest, who, place, i);
    } else {
        assert forall|j: int| 0 <= j < rest.len() implies !serves(
            #[trigger] rest[j],
            who,
            place,
        ) by {
            assert(!serves(sockets[j], who, place));
        }
        law_nobody_serves(rest, who, place);
    }
}

/// Without a socket of a client at a place nobody serves there.
pub proof fn law_nobody_serves(sockets: Seq<SocketV>, who: Seq<char>, place: Seq<char>)
    requires
        forall|j: int| 0 <= j < sockets.len() ==> !serves(#[trigger] sockets[j], who, place),
    ensures
        serving(sockets, who, place) is None,
    decreases sockets.len(),
{
    if sockets.len() > 0 {
        let rest = sockets.drop_last();
        assert forall|j: int| 0 <= j < rest.len() implies !serves(#[trigger] rest[j], who, place) by {
            assert(!serves(sockets[j], who, place));
        }
        assert(!serves(sockets[sockets.len() - 1], who, place));
        law_nobody_serves(rest, who, place);
    }
}

/// Whether a socket of a client at a place has an identity.
pub open spec fn is_one_of(
    sockets: Seq<SocketV>,
    who: Seq<char>,
    place: Seq<char>,
    id: u64,
) -> bool {
    exists|i: int|
        0 <= i < sockets.len() && serves(#[trigger] sockets[i], who, place) && sockets[i].id == id
}

/// The sockets of a client at a place are all found, and each once.
pub proof fn law_all_sockets_of_a_client_are_found(
    sockets: Seq<SocketV>,
    next: u64,
    who: Seq<char>,
    place: Seq<char>,
)
    requires
        sockets_tidy(sockets, next),
    ensures
        forall|i: int|
            0 <= i < sockets.len() && serves(#[trigger] sockets[i], who, place) ==> all_serving(
                sockets,
                who,
                place,
            ).contains(sockets[i].id),
        forall|k: int|
            0 <= k < all_serving(sockets, who, place).len() ==> is_one_of(
                sockets,
                who,
                place,
                #[trigger] all_serving(sockets, who, place)[k],
            ),
        all_serving(sockets, who, place).no_duplicates(),
    decreases sockets.len(),
{
    if sockets.len() > 0 {
        let rest = sockets.drop_last();
        let n = rest.len() as int;
        assert(sockets_tidy(rest, next)) by {
            assert forall|i: int, j: int| 0 <= i < j < rest.len() implies (#[trigger] rest[i]).id
                != (#[trigger] rest[j]).id by {
                assert(sockets[i].id != sockets[j].id);
            }
            assert forall|i: int| 0 <= i < rest.len() implies (#[trigger] rest[i]).id < next by {
                assert(sockets[i].id < next);
            }
        }
        law_all_sockets_of_a_client_are_found(rest, next, who, place);
        let (fewer, all) = (all_serving(rest, who, place), all_serving(sockets, who, place));
        assert forall|i: int|
            0 <= i < sockets.len() && serves(#[trigger] sockets[i], who, place) implies all.contains(
            sockets[i].id,
        ) by {
            if i < n {
                assert(serves(rest[i], who, place));
                let k = fewer.index_of(rest[i].id);
                assert(all[k] == sockets[i].id);
            } else {
                assert(all[fewer.len() as int] == sockets[i].id);
            }
        }
        assert forall|k: int| 0 <= k < all.len() implies is_one_of(
            sockets,
            who,
            place,
            #[trigger] all[k],
        ) by {
            if k < fewer.len() {
                assert(is_one_of(rest, who, place, fewer[k]));
                let i = choose|i: int|
                    0 <= i < rest.len() && serves(#[trigger] rest[i], who, place) && rest[i].id
                        == fewer[k];
                assert(serves(sockets[i], who, place));
            } else {
                assert(serves(sockets[n], who, place));
            }
        }
        assert forall|a: int, b: int| 0 <= a < b < all.len() implies all[a] != all[b] by {
            if b < fewer.len() {
                assert(fewer[a] != fewer[b]);
            } else {
                assert(is_one_of(rest, who, place, fewer[a]));
                let i = choose|i: int|
                    0 <= i < rest.len() && serves(#[trigger] rest[i], who, place) && rest[i].id
                        == fewer[a];
                assert(sockets[i].id != sockets[n].id);
            }
        }
    }
}

// ---------------------------------------------------------------------------
// Questions and calls
// ---------------------------------------------------------------------------

/// Whether the bus is the same but for one more event that waits for a Wicket.
pub open spec fn waits_at(before: BusV, after: BusV, h: int, p: PendingV) -> bool {
    &&& after == (BusV { wickets: after.wickets, ..before })
    &&& after.wickets.len() == before.wickets.len()
    &&& after.wickets[h].host == before.wickets[h].host
    &&& after.wickets[h].state == before.wickets[h].state
    &&& after.wickets[h].stashed == before.wickets[h].stashed.push(p)
    &&& forall|k: int|
        0 <= k < before.wickets.len() && k != h ==> #[trigger] after.wickets[k]
            == before.wickets[k]
}

/// Whether the bus is the same but for one more Wicket, which is starting, and for
/// which one event waits.
pub open spec fn waits_for_new(before: BusV, after: BusV, host: Seq<char>, p: PendingV) -> bool {
    &&& after == (BusV { wickets: after.wickets, ..before })
    &&& after.wickets.len() == before.wickets.len() + 1
    &&& after.wickets.last().host == host
    &&& after.wickets.last().state == WicketState::Starting
    &&& after.wickets.last().stashed == seq![p]
    &&& forall|k: int|
        0 <= k < before.wickets.len() ==> #[trigger] after.wickets[k] == before.wickets[k]
}

/// A question waits for the Wicket at home while that is starting, and starts it
/// where there is none.
pub proof fn law_questions_wait_for_the_wicket_at_home(bus: BusV, ticket: u64, h: int)
    requires
        tidy(bus),
    ensures
        0 <= h < bus.wickets.len() && bus.wickets[h].host == "localhost"@ && bus.wickets[h].state
            == WicketState::Starting ==> {
            let turn = query_turn(bus, ticket);
            turn.actions.len() == 0 && waits_at(bus, turn.bus, h, PendingV::Query(ticket))
        },
        (forall|k: int|
            0 <= k < bus.wickets.len() ==> (#[trigger] bus.wickets[k]).host != "localhost"@) ==> {
            let turn = query_turn(bus, ticket);
            turn.actions == seq![ActionV::Spawn("localhost"@)] && waits_for_new(
                bus,
                turn.bus,
                "localhost"@,
                PendingV::Query(ticket),
            )
        },
{
    lemma_wicket_place(bus.wickets, "localhost"@);
    if 0 <= h < bus.wickets.len() {
        lemma_wicket_at(bus.wickets, h);
    }
}

/// A failure that the bus reports itself has exit code one, and changes nothing.
pub open spec fn is_failure(action: ActionV, ticket: u64, text: Seq<char>) -> bool {
    action == ActionV::Reply(ticket, ResultV { output: text, exit_code: 1, changes: None })
}

/// A call of another client than a Wicket goes on at once, unchanged; a call of a
/// Wicket that names no host fails.
pub proof fn law_calls_without_a_wicket(bus: BusV, call: ToolCallV)
    ensures
        call.args.text_at("who"@) != Some("wicket"@) ==> call_turn(bus, call).bus == bus
            && call_turn(bus, call).actions == seq![
            ActionV::Enqueue(QueuedV::Pending(PendingV::Ensured(call))),
        ],
        call.args.text_at("who"@) == Some("wicket"@) && call.args.at("args"@).text_at("where"@)
            is None ==> call_turn(bus, call).bus == bus && call_turn(bus, call).actions.len() == 1
            && is_failure(
            call_turn(bus, call).actions[0],
            call.ticket,
            "wicket tool call missing required where argument"@,
        ),
{
    reveal_strlit("wicket");
    assert("wicket"@.len() == 6);
}

/// A call of a Wicket goes on where that is connected, waits while it is starting,
/// and fails where it has hung up.
pub proof fn law_calls_of_a_known_wicket(bus: BusV, call: ToolCallV, h: int)
    requires
        tidy(bus),
        0 <= h < bus.wickets.len(),
        call.args.text_at("who"@) == Some("wicket"@),
        call.args.at("args"@).text_at("where"@) == Some(bus.wickets[h].host),
    ensures
        ({
            let turn = call_turn(bus, call);
            match bus.wickets[h].state {
                WicketState::Connected(_) => turn.bus == bus && turn.actions == seq![
                    ActionV::Enqueue(QueuedV::Pending(PendingV::Ensured(call))),
                ],
                WicketState::Starting => turn.actions.len() == 0 && waits_at(
                    bus,
                    turn.bus,
                    h,
                    PendingV::Ensured(call),
                ),
                WicketState::Disconnected => turn.bus == bus && turn.actions.len() == 1
                    && is_failure(
                    turn.actions[0],
                    call.ticket,
                    "wicket on "@ + bus.wickets[h].host + " disconnected"@,
                ),
            }
        }),
{
    lemma_wicket_at(bus.wickets, h);
}

/// A call of a Wicket that is not there starts it on the host that it names, and
/// waits for it.
pub proof fn law_calls_start_their_wicket(bus: BusV, call: ToolCallV, host: Seq<char>)
    requires
        call.args.text_at("who"@) == Some("wicket"@),
        call.args.at("args"@).text_at("where"@) == Some(host),
        forall|k: int| 0 <= k < bus.wickets.len() ==> (#[trigger] bus.wickets[k]).host != host,
    ensures
        ({
            let turn = call_turn(bus, call);
            &&& turn.actions == seq![ActionV::Spawn(host)]
            &&& waits_for_new(bus, turn.bus, host, PendingV::Ensured(call))
        }),
{
    lemma_wicket_place(bus.wickets, host);
}

/// A call whose client is there is claimed in place of an earlier claim under its
/// identity, all other claims stay, and it is steered next.
pub proof fn law_ensured_calls_are_claimed(bus: BusV, call: ToolCallV, c: int)
    requires
        tidy(bus),
    ensures
        ({
            let turn = ensured_turn(bus, call);
            &&& turn.actions == seq![ActionV::Enqueue(QueuedV::Steered(call.call_id))]
            &&& turn.bus == (BusV { claims: turn.bus.claims, ..bus })
            &&& 0 <= c < bus.claims.len() && bus.claims[c].call_id == call.call_id
                ==> turn.bus.claims == bus.claims.remove(c).push(call)
            &&& (forall|k: int|
                0 <= k < bus.claims.len() ==> (#[trigger] bus.claims[k]).call_id != call.call_id)
                ==> turn.bus.claims == bus.claims.push(call)
        }),
{
    lemma_claim_place(bus.claims, call.call_id);
    if 0 <= c < bus.claims.len() {
        lemma_claim_at(bus.claims, c);
    }
}

/// Where a call is to run: where it says, or else at home.
pub open spec fn place_of(args: Val) -> Seq<char> {
    match args.at("args"@).text_at("where"@) {
        Some(place) => place,
        None => "localhost"@,
    }
}

/// The client that a call names.
pub open spec fn client_of(args: Val) -> Seq<char> {
    match args.text_at("who"@) {
        Some(who) => who,
        None => Seq::empty(),
    }
}

/// Whether a call is dispatched: its socket gets it, it has a day, and it is known
/// to run there; its claim is used up.
pub open spec fn is_dispatched(
    before: BusV,
    after: BusV,
    actions: Seq<ActionV>,
    c: int,
    client_id: u64,
) -> bool {
    let call = before.claims[c];
    &&& actions.len() == 2
    &&& actions[0] matches ActionV::Send(to, packet) && to == client_id && packet == dispatch_value(
        call,
    )
    &&& actions[1] == ActionV::Delay(86_400_000, TimerV::Call(call.call_id))
    &&& after.claims == before.claims.remove(c)
    &&& after.calls.last() == (RunningV { call, client_id })
    &&& after.sockets == before.sockets
    &&& after.wickets == before.wickets
    &&& after.next_client == before.next_client
    &&& (forall|k: int|
        0 <= k < before.calls.len() ==> (#[trigger] before.calls[k]).call.call_id != call.call_id)
        ==> after.calls == before.calls.push(RunningV { call, client_id })
    &&& forall|k: int|
        0 <= k < before.calls.len() && (#[trigger] before.calls[k]).call.call_id == call.call_id
            ==> after.calls == before.calls.remove(k).push(RunningV { call, client_id })
}

/// A claimed call without a socket of its client at its place fails, and says whom
/// it missed and where.
pub proof fn law_a_call_without_a_client_fails(bus: BusV, c: int, now: u64)
    requires
        tidy(bus),
        0 <= c < bus.claims.len(),
        forall|j: int|
            0 <= j < bus.sockets.len() ==> !serves(
                #[trigger] bus.sockets[j],
                client_of(bus.claims[c].args),
                place_of(bus.claims[c].args),
            ),
    ensures
        ({
            let call = bus.claims[c];
            let turn = steered_turn(bus, call.call_id, now);
            &&& turn.bus == (BusV { claims: bus.claims.remove(c), ..bus })
            &&& turn.actions.len() == 1
            &&& is_failure(
                turn.actions[0],
                call.ticket,
                "no connected client for who="@ + client_of(call.args) + " where="@ + place_of(
                    call.args,
                ),
            )
        }),
{
    lemma_claim_at(bus.claims, c);
    law_nobody_serves(
        bus.sockets,
        client_of(bus.claims[c].args),
        place_of(bus.claims[c].args),
    );
}

/// A claimed call goes to the first socket of its client at its place. One that
/// saves a screenshot gets a route, or fails with the reason why it has none; every
/// other call leaves the routes alone.
pub proof fn law_a_claimed_call_is_dispatched(bus: BusV, c: int, i: int, now: u64)
    requires
        tidy(bus),
        0 <= c < bus.claims.len(),
        0 <= i < bus.sockets.len(),
        serves(bus.sockets[i], client_of(bus.claims[c].args), place_of(bus.claims[c].args)),
        forall|j: int|
            0 <= j < i ==> !serves(
                #[trigger] bus.sockets[j],
                client_of(bus.claims[c].args),
                place_of(bus.claims[c].args),
            ),
    ensures
        ({
            let call = bus.claims[c];
            let id = bus.sockets[i].id;
            let turn = steered_turn(bus, call.call_id, now);
            let saves = call.args.text_at("who"@) == Some("shotgun"@) && call.args.text_at("f"@)
                == Some("screenshot_save"@);
            let refused = register_error(bus.routes, call.call_id, call.slug, call.args);
            if saves && refused is Some {
                &&& turn.bus == (BusV { claims: bus.claims.remove(c), ..bus })
                &&& turn.actions.len() == 1
                &&& is_failure(turn.actions[0], call.ticket, refused->0)
            } else {
                &&& is_dispatched(bus, turn.bus, turn.actions, c, id)
                &&& turn.bus.routes == if saves {
                    registered(bus.routes, call.call_id, id, call.slug, call.args, now)
                } else {
                    bus.routes
                }
            }
        }),
{
    let call = bus.claims[c];
    lemma_claim_at(bus.claims, c);
    law_the_first_client_serves(bus.sockets, client_of(call.args), place_of(call.args), i);
    lemma_running_place(bus.calls, call.call_id);
    assert forall|k: int|
        0 <= k < bus.calls.len() && (#[trigger] bus.calls[k]).call.call_id
            == call.call_id implies running_place(bus.calls, call.call_id) == Some(k) by {
        lemma_running_at(bus.calls, k);
    }
    reveal_strlit("shotgun");
    reveal_strlit("screenshot_save");
    assert("shotgun"@.len() == 7 && "screenshot_save"@.len() == 15);
}

/// What was not claimed is not steered.
pub proof fn law_an_unclaimed_call_is_not_steered(bus: BusV, call_id: Seq<char>, now: u64)
    requires
        forall|k: int| 0 <= k < bus.claims.len() ==> (#[trigger] bus.claims[k]).call_id != call_id,
    ensures
        steered_turn(bus, call_id, now).bus == bus,
        steered_turn(bus, call_id, now).actions.len() == 0,
{
    lemma_claim_place(bus.claims, call_id);
}

/// The client of a call gets its arguments unchanged, and the function that it
/// calls. The words that name the call are there too, unless an argument has the
/// same name; nothing else is.
pub proof fn law_arguments_reach_the_client(call: ToolCallV, key: Seq<char>)
    ensures
        dispatch_value(call) is Object,
        dispatch_value(call).get("f"@) == Some(
            Val::Text(
                match call.args.text_at("f"@) {
                    Some(f) => f,
                    None => Seq::empty(),
                },
            ),
        ),
        key != "f"@ && call.args.at("args"@).get(key) is Some ==> dispatch_value(call).get(key)
            == call.args.at("args"@).get(key),
        key != "f"@ && call.args.at("args"@).get(key) is None ==> dispatch_value(call).get(key)
            == if key == "what"@ {
            Some(Val::Text("tool"@))
        } else if key == "slug"@ {
            Some(Val::Text(call.slug))
        } else if key == "transcript"@ {
            Some(Val::Text(Seq::empty()))
        } else if key == "why"@ {
            Some(Val::Text("run"@))
        } else if key == "call_id"@ {
            Some(Val::Text(call.call_id))
        } else {
            None
        },
{
    reveal_strlit("what");
    reveal_strlit("slug");
    reveal_strlit("transcript");
    reveal_strlit("why");
    reveal_strlit("call_id");
    reveal_strlit("f");
    assert("what"@.len() == 4 && "slug"@.len() == 4 && "transcript"@.len() == 10
        && "why"@.len() == 3 && "call_id"@.len() == 7 && "f"@.len() == 1);
    assert("what"@[0] != "slug"@[0]);
}

// ---------------------------------------------------------------------------
// Answers
// ---------------------------------------------------------------------------

/// A packet is written as its compact text.
pub proof fn law_packets_are_written(packet: Val)
    ensures
        compact(packet) is Some ==> packet_text(packet) == compact(packet)->0,
        compact(packet) is None ==> packet_text(packet).len() == 0,
{
}

/// A completed call gets the packet that completes it, and succeeds exactly where
/// the picture was stored.
pub proof fn law_only_a_stored_picture_is_a_success(packet: Val)
    ensures
        completion(packet).output == packet_text(packet),
        completion(packet).exit_code == 0 <==> packet.at("why"@) == Val::Text("stored"@),
        completion(packet).exit_code == 0 || completion(packet).exit_code == 1,
        completion(packet).changes is None,
{
}

/// The answer to an ordinary call is passed on as it is; the other calls go on.
pub proof fn law_an_answer_is_passed_on(
    bus: BusV,
    i: int,
    result: ResultV,
    held: Option<Val>,
)
    requires
        tidy(bus),
        0 <= i < bus.calls.len(),
        !routed(bus.routes, bus.calls[i].call.call_id),
    ensures
        ({
            let r = bus.calls[i];
            let turn = response_turn(bus, r.client_id, r.call.call_id, result, held);
            &&& turn.actions == seq![ActionV::Reply(r.call.ticket, result)]
            &&& turn.bus == (BusV { calls: bus.calls.remove(i), ..bus })
        }),
        ({
            let r = bus.calls[i];
            let turn = call_timeout_turn(bus, r.call.call_id);
            &&& turn.actions.len() == 1
            &&& is_failure(turn.actions[0], r.call.ticket, "tool call timed out"@)
            &&& turn.bus == (BusV { calls: bus.calls.remove(i), ..bus })
        }),
{
    lemma_running_at(bus.calls, i);
}

/// The answer to a screenshot save is the packet that was relayed, where the socket
/// gives that back; else the save ends with the reason, as its router ends it. A
/// save that takes too long ends too, and its source is told.
pub proof fn law_a_save_is_answered_with_its_packet(
    bus: BusV,
    i: int,
    result: ResultV,
    held: Option<Val>,
)
    requires
        tidy(bus),
        0 <= i < bus.calls.len(),
        routed(bus.routes, bus.calls[i].call.call_id),
    ensures
        ({
            let r = bus.calls[i];
            let id = r.call.call_id;
            let turn = response_turn(bus, r.client_id, id, result, held);
            match tool_error(bus.routes, id, held) {
                None => {
                    &&& turn.bus == (BusV {
                        calls: bus.calls.remove(i),
                        routes: removed(bus.routes, id),
                        ..bus
                    })
                    &&& turn.actions.len() == 1
                    &&& turn.actions[0] matches ActionV::Reply(ticket, answer)
                    &&& ticket == r.call.ticket
                    &&& answer.output == packet_text(route(bus.routes, id).result->0)
                    &&& answer.exit_code == result.exit_code
                    &&& answer.changes is None
                },
                Some(reason) => {
                    let step = end_step(bus.routes, id, reason, false);
                    &&& turn.bus.routes == step.calls
                    &&& turn.actions == effects_turn(bus.calls, step.effects).1
                    &&& turn.bus.sockets == bus.sockets && turn.bus.claims == bus.claims
                        && turn.bus.wickets == bus.wickets
                },
            }
        }),
        ({
            let id = bus.calls[i].call.call_id;
            let turn = call_timeout_turn(bus, id);
            let step = end_step(bus.routes, id, "tool call timed out"@, true);
            &&& turn.bus.routes == step.calls
            &&& turn.actions == effects_turn(bus.calls, step.effects).1
            &&& turn.bus.sockets == bus.sockets && turn.bus.claims == bus.claims
                && turn.bus.wickets == bus.wickets
        }),
{
    lemma_running_at(bus.calls, i);
}

/// What is not known to run is not answered, and does not time out.
pub proof fn law_an_unknown_call_is_not_answered(
    bus: BusV,
    client_id: u64,
    call_id: Seq<char>,
    result: ResultV,
    held: Option<Val>,
)
    requires
        forall|k: int|
            0 <= k < bus.calls.len() ==> (#[trigger] bus.calls[k]).call.call_id != call_id,
    ensures
        response_turn(bus, client_id, call_id, result, held).bus == bus,
        response_turn(bus, client_id, call_id, result, held).actions.len() == 0,
        call_timeout_turn(bus, call_id).bus == bus,
        call_timeout_turn(bus, call_id).actions.len() == 0,
{
    lemma_running_place(bus.calls, call_id);
}

/// What the router asks for is done: a packet is sent to its socket, a socket is
/// closed, a fact is recorded, and a completed call is answered and over.
pub proof fn law_one_effect_is_done(calls: Seq<RunningV>, effect: EffectV, i: int)
    requires
        calls_tidy(calls),
    ensures
        ({
            let (left, actions) = effects_turn(calls, seq![effect]);
            match effect {
                EffectV::Send { socket, packet } => left == calls && actions == seq![
                    ActionV::Send(socket, packet),
                ],
                EffectV::Close { socket } => left == calls && actions == seq![
                    ActionV::Close(socket),
                ],
                EffectV::Observe(fact) => left == calls && actions == seq![ActionV::Observe(fact)],
                EffectV::Complete { call_id, packet } => {
                    &&& 0 <= i < calls.len() && calls[i].call.call_id == call_id ==> left
                        == calls.remove(i) && actions == seq![
                        ActionV::Reply(calls[i].call.ticket, completion(packet)),
                    ]
                    &&& (forall|k: int|
                        0 <= k < calls.len() ==> (#[trigger] calls[k]).call.call_id != call_id)
                        ==> left == calls && actions.len() == 0
                },
            }
        }),
{
    assert(seq![effect].drop_last() =~= Seq::<EffectV>::empty());
    assert(effects_turn(calls, Seq::<EffectV>::empty()) == (calls, Seq::<ActionV>::empty()));
    let turn = effect_turn(calls, effect);
    assert(Seq::<ActionV>::empty() + turn.1 =~= turn.1);
    if let EffectV::Complete { call_id, packet } = effect {
        lemma_running_place(calls, call_id);
        if 0 <= i < calls.len() {
            lemma_running_at(calls, i);
        }
    }
}

/// What the router asks for is done in its order, to the last.
pub proof fn law_effects_are_done_in_order(
    calls: Seq<RunningV>,
    first: Seq<EffectV>,
    second: Seq<EffectV>,
)
    ensures
        ({
            let (middle, some) = effects_turn(calls, first);
            let (left, more) = effects_turn(middle, second);
            effects_turn(calls, first + second) == (left, some + more)
        }),
        effects_turn(calls, Seq::empty()) == (calls, Seq::<ActionV>::empty()),
    decreases second.len(),
{
    if second.len() == 0 {
        assert(first + second =~= first);
        let (middle, some) = effects_turn(calls, first);
        assert(some + Seq::<ActionV>::empty() =~= some);
    } else {
        let rest = second.drop_last();
        law_effects_are_done_in_order(calls, first, rest);
        assert((first + second).drop_last() =~= first + rest);
        let (middle, some) = effects_turn(calls, first);
        let (before, more) = effects_turn(middle, rest);
        let (left, last) = effect_turn(before, second.last());
        assert(some + more + last =~= some + (more + last));
    }
}

// ---------------------------------------------------------------------------
// Sockets
// ---------------------------------------------------------------------------

/// A socket that connects is new, has no name, and stands at home; nothing else
/// changes.
pub proof fn law_a_new_socket_has_no_name(bus: BusV)
    requires
        bus.next_client < u64::MAX,
    ensures
        ({
            let after = accepted(bus);
            &&& after.sockets.len() == bus.sockets.len() + 1
            &&& after.sockets.drop_last() == bus.sockets
            &&& after.sockets.last().id == bus.next_client
            &&& after.sockets.last().who is None
            &&& after.sockets.last().place == "localhost"@
            &&& after.sockets.last().tools is None
            &&& after.next_client == bus.next_client + 1
            &&& after.claims == bus.claims && after.calls == bus.calls && after.wickets
                == bus.wickets && after.routes == bus.routes
        }),
{
    assert(accepted(bus).sockets.drop_last() =~= bus.sockets);
}

/// A socket that says who it is has that name, its place or else the home, and all
/// the functions that it offers; the other sockets, the calls and the routes stay.
pub proof fn law_a_socket_says_who_it_is(
    bus: BusV,
    i: int,
    who: Seq<char>,
    place: Option<Seq<char>>,
    tools: Seq<ListedV>,
)
    requires
        tidy(bus),
        0 <= i < bus.sockets.len(),
    ensures
        ({
            let after = connect_turn(bus, bus.sockets[i].id, who, place, tools).bus;
            &&& after.sockets.len() == bus.sockets.len()
            &&& after.sockets[i].id == bus.sockets[i].id
            &&& after.sockets[i].who == Some(who)
            &&& after.sockets[i].place == match place {
                Some(p) => p,
                None => "localhost"@,
            }
            &&& after.sockets[i].tools == Some(tools)
            &&& forall|k: int|
                0 <= k < bus.sockets.len() && k != i ==> #[trigger] after.sockets[k]
                    == bus.sockets[k]
            &&& after.claims == bus.claims && after.calls == bus.calls && after.routes == bus.routes
                && after.next_client == bus.next_client
        }),
{
    lemma_socket_at(bus.sockets, bus.next_client, i);
}

/// A Wicket that says where it is is connected there. What waited for it is checked
/// again, each once and in its order, and waits no more.
pub proof fn law_a_wicket_connects(
    bus: BusV,
    client_id: u64,
    host: Seq<char>,
    tools: Seq<ListedV>,
    h: int,
)
    requires
        tidy(bus),
    ensures
        ({
            let turn = connect_turn(bus, client_id, "wicket"@, Some(host), tools);
            let after = turn.bus.wickets;
            &&& 0 <= h < bus.wickets.len() && bus.wickets[h].host == host ==> {
                &&& after.len() == bus.wickets.len()
                &&& after[h].host == host
                &&& after[h].state == WicketState::Connected(client_id)
                &&& after[h].stashed.len() == 0
                &&& forall|k: int|
                    0 <= k < bus.wickets.len() && k != h ==> #[trigger] after[k] == bus.wickets[k]
                &&& are_checked_again(turn.actions, bus.wickets[h].stashed)
            }
            &&& (forall|k: int|
                0 <= k < bus.wickets.len() ==> (#[trigger] bus.wickets[k]).host != host) ==> {
                &&& after.len() == bus.wickets.len() + 1
                &&& after.drop_last() == bus.wickets
                &&& after.last().host == host
                &&& after.last().state == WicketState::Connected(client_id)
                &&& after.last().stashed.len() == 0
                &&& turn.actions.len() == 0
            }
        }),
{
    lemma_wicket_place(bus.wickets, host);
    if 0 <= h < bus.wickets.len() {
        lemma_wicket_at(bus.wickets, h);
    }
    let after = connect_turn(bus, client_id, "wicket"@, Some(host), tools).bus.wickets;
    if wicket_place(bus.wickets, host) is None {
        assert(after.drop_last() =~= bus.wickets);
    }
}

/// Another client that says who it is leaves the Wickets alone.
pub proof fn law_other_clients_are_no_wickets(
    bus: BusV,
    client_id: u64,
    who: Seq<char>,
    place: Option<Seq<char>>,
    tools: Seq<ListedV>,
)
    requires
        who != "wicket"@ || place is None,
    ensures
        connect_turn(bus, client_id, who, place, tools).bus.wickets == bus.wickets,
        connect_turn(bus, client_id, who, place, tools).actions.len() == 0,
{
}

/// Whether what waited is checked again, each once and in its order.
pub open spec fn are_checked_again(actions: Seq<ActionV>, waiting: Seq<PendingV>) -> bool {
    &&& actions.len() == waiting.len()
    &&& forall|k: int|
        0 <= k < waiting.len() ==> #[trigger] actions[k] == ActionV::Enqueue(
            QueuedV::Check(waiting[k]),
        )
}

/// The calls of a socket that hangs up are answered, each once and in their order,
/// and no others.
pub proof fn law_hang_ups_are_answered_in_order(
    a: Seq<RunningV>,
    b: Seq<RunningV>,
    client_id: u64,
    place: Seq<char>,
)
    ensures
        hang_ups(a + b, client_id, place) == hang_ups(a, client_id, place) + hang_ups(
            b,
            client_id,
            place,
        ),
    decreases b.len(),
{
    if b.len() == 0 {
        assert(a + b =~= a);
        assert(hang_ups(a, client_id, place) + hang_ups(b, client_id, place) =~= hang_ups(
            a,
            client_id,
            place,
        ));
    } else {
        law_hang_ups_are_answered_in_order(a, b.drop_last(), client_id, place);
        assert((a + b).drop_last() =~= a + b.drop_last());
        assert(hang_ups(a + b, client_id, place) =~= hang_ups(a, client_id, place) + hang_ups(
            b,
            client_id,
            place,
        ));
    }
}

/// The call of a socket that hangs up fails, and says who hung up where: where the
/// call was to run, or else where the socket was. The calls of other sockets are
/// left alone.
pub proof fn law_a_hang_up_says_who_and_where(r: RunningV, client_id: u64, place: Seq<char>)
    ensures
        ({
            let answers = hang_ups(seq![r], client_id, place);
            let at = match r.call.args.at("args"@).text_at("where"@) {
                Some(p) => p,
                None => place,
            };
            let who = match r.call.args.text_at("who"@) {
                Some(w) => w,
                None => "unknown"@,
            };
            if r.client_id != client_id {
                answers.len() == 0
            } else {
                &&& answers.len() == 1
                &&& is_failure(
                    answers[0],
                    r.call.ticket,
                    if who == "wicket"@ {
                        "wicket on "@ + at
                            + " hung up while running tool call; command may or may not have completed"@
                    } else {
                        "client who="@ + who + " where="@ + at
                            + " hung up while running tool call; operation may or may not have completed"@
                    },
                )
            }
        }),
{
    assert(seq![r].drop_last() =~= Seq::<RunningV>::empty());
    assert(hang_ups(Seq::empty(), client_id, place).len() == 0);
}

/// A socket that hangs up is forgotten, and only that socket: the others stay as
/// they are, in their order. A Wicket that it was has hung up, and the other
/// Wickets stay. Claims stay.
pub proof fn law_a_hang_up_leaves_the_others(bus: BusV, i: int)
    requires
        tidy(bus),
        0 <= i < bus.sockets.len(),
    ensures
        ({
            let id = bus.sockets[i].id;
            let after = disconnected_turn(bus, id).bus;
            &&& after.sockets == bus.sockets.remove(i)
            &&& after.claims == bus.claims
            &&& after.next_client == bus.next_client
            &&& after.wickets.len() == bus.wickets.len()
            &&& forall|k: int|
                0 <= k < bus.wickets.len() ==> {
                    &&& (#[trigger] after.wickets[k]).host == bus.wickets[k].host
                    &&& after.wickets[k].stashed == bus.wickets[k].stashed
                    &&& after.wickets[k].state == if bus.wickets[k].state
                        == WicketState::Connected(id) {
                        WicketState::Disconnected
                    } else {
                        bus.wickets[k].state
                    }
                }
        }),
{
    lemma_socket_at(bus.sockets, bus.next_client, i);
}

/// When a socket hangs up its routes end first, and then the calls that still run
/// on it fail; the calls of the others go on.
pub proof fn law_a_hang_up_ends_routes_and_then_calls(bus: BusV, i: int)
    requires
        tidy(bus),
        0 <= i < bus.sockets.len(),
    ensures
        ({
            let id = bus.sockets[i].id;
            let turn = disconnected_turn(bus, id);
            let step = disconnect_step(bus.routes, id);
            let (calls, actions) = effects_turn(bus.calls, step.effects);
            &&& turn.bus.routes == step.calls
            &&& turn.actions == actions + hang_ups(calls, id, bus.sockets[i].place)
            &&& forall|r: RunningV| #[trigger]
                turn.bus.calls.contains(r) <==> calls.contains(r) && r.client_id != id
        }),
{
    lemma_socket_at(bus.sockets, bus.next_client, i);
    let id = bus.sockets[i].id;
    let calls = effects_turn(bus.calls, disconnect_step(bus.routes, id).effects).0;
    let keep = |r: RunningV| r.client_id != id;
    assert forall|r: RunningV| #[trigger]
        calls.filter(keep).contains(r) <==> calls.contains(r) && r.client_id != id by {
        lemma_kept(calls, keep, r);
    }
}

proof fn lemma_kept(calls: Seq<RunningV>, keep: spec_fn(RunningV) -> bool, r: RunningV)
    ensures
        calls.filter(keep).contains(r) <==> calls.contains(r) && keep(r),
    decreases calls.len(),
{
    reveal(Seq::filter);
    if calls.len() > 0 {
        let rest = calls.drop_last();
        lemma_kept(rest, keep, r);
        let (fewer, all) = (rest.filter(keep), calls.filter(keep));
        if fewer.contains(r) {
            let k = fewer.index_of(r);
            assert(all[k] == r);
        }
        if all.contains(r) {
            let k = all.index_of(r);
            if k < fewer.len() {
                assert(fewer[k] == r);
            }
        }
        if rest.contains(r) {
            let k = rest.index_of(r);
            assert(calls[k] == r);
        }
        if calls.contains(r) {
            let k = calls.index_of(r);
            if k < rest.len() {
                assert(rest[k] == r);
            } else if keep(r) {
                assert(all[all.len() - 1] == r);
            }
        }
        if calls.last() == r {
            assert(calls[calls.len() - 1] == r);
        }
    }
}

/// A socket that is not known has nothing to forget but what runs on it.
pub proof fn law_an_unknown_socket_leaves_the_others(bus: BusV, client_id: u64)
    requires
        forall|k: int| 0 <= k < bus.sockets.len() ==> (#[trigger] bus.sockets[k]).id != client_id,
    ensures
        ({
            let turn = disconnected_turn(bus, client_id);
            let step = disconnect_step(bus.routes, client_id);
            let (calls, actions) = effects_turn(bus.calls, step.effects);
            &&& turn.bus.sockets == bus.sockets
            &&& turn.bus.claims == bus.claims
            &&& turn.bus.routes == step.calls
            &&& turn.actions == actions + hang_ups(calls, client_id, "unknown"@)
        }),
{
    lemma_socket_place(bus.sockets, client_id);
}

/// A packet of a screenshot save goes to the router, together with the Wickets at
/// home. A socket that breaks the protocol hangs up; no other packet changes the
/// sockets, the claims or the Wickets.
pub proof fn law_packets_go_to_the_router(
    bus: BusV,
    client_id: u64,
    data: Val,
    sizes: Sizes,
    now: u64,
)
    ensures
        ({
            let writers = all_serving(bus.sockets, "wicket"@, "localhost"@);
            let step = packet_step(bus.routes, client_id, data, sizes, writers, now);
            let turn = screenshot_turn(bus, client_id, data, sizes, now);
            let (calls, actions) = effects_turn(bus.calls, step.effects);
            if step.effects.len() > 0 && step.effects.last() is Close {
                let cut = disconnected_turn(
                    BusV { calls, routes: step.calls, ..bus },
                    client_id,
                );
                turn.bus == cut.bus && turn.actions == actions + cut.actions
            } else {
                turn.bus == (BusV { calls, routes: step.calls, ..bus }) && turn.actions == actions
            }
        }),
        ({
            let step = expire_step(bus.routes, now);
            let turn = tick_turn(bus, now);
            let (calls, actions) = effects_turn(bus.calls, step.effects);
            turn.bus == (BusV { calls, routes: step.calls, ..bus }) && turn.actions == actions
        }),
{
}

// ---------------------------------------------------------------------------
// Wickets
// ---------------------------------------------------------------------------

/// A started Wicket has ten seconds to connect.
pub proof fn law_a_wicket_has_ten_seconds(bus: BusV, host: Seq<char>)
    ensures
        spawned_turn(bus, host).bus == bus,
        spawned_turn(bus, host).actions == seq![ActionV::Delay(10_000, TimerV::Spawn(host))],
{
}

/// Where a Wicket cannot be started everything that waits for it is answered, each
/// once and in its order: a question with the functions that there are, and a call
/// with the failure. The Wicket is forgotten, and the others stay.
pub proof fn law_a_failed_start_answers_what_waits(
    bus: BusV,
    h: int,
    error: Seq<char>,
)
    requires
        tidy(bus),
        0 <= h < bus.wickets.len(),
    ensures
        ({
            let w = bus.wickets[h];
            let turn = spawn_failed_turn(bus, w.host, error);
            let start = "failed to spawn wicket on "@ + w.host + ": "@;
            &&& turn.bus == (BusV { wickets: bus.wickets.remove(h), ..bus })
            &&& turn.actions.len() == w.stashed.len()
            &&& forall|k: int|
                0 <= k < w.stashed.len() ==> match w.stashed[k] {
                    PendingV::Query(ticket) => {
                        &&& #[trigger] turn.actions[k] matches ActionV::Tools(t, text)
                        &&& t == ticket
                        &&& shows_the_functions(text, bus.sockets)
                    },
                    PendingV::Call(call) => is_failure(
                        turn.actions[k],
                        call.ticket,
                        start + (start + error),
                    ),
                    PendingV::Ensured(call) => is_failure(
                        turn.actions[k],
                        call.ticket,
                        start + (start + error),
                    ),
                }
        }),
{
    let w = bus.wickets[h];
    lemma_wicket_at(bus.wickets, h);
    lemma_tools_are_shown(bus.sockets);
    let list = listings(firsts(all_offered(tool_sets(bus.sockets))));
    assert(lists_the_functions(list, bus.sockets));
    assert(shows_the_functions(tools_text(bus), bus.sockets));
}

/// A Wicket whose process has ended is forgotten; one that takes too long to
/// connect has hung up. What waits is checked again, and the other Wickets stay.
pub proof fn law_a_lost_wicket_keeps_nothing_waiting(bus: BusV, h: int)
    requires
        tidy(bus),
        0 <= h < bus.wickets.len(),
    ensures
        ({
            let w = bus.wickets[h];
            let turn = exited_turn(bus, w.host);
            &&& turn.bus == (BusV { wickets: bus.wickets.remove(h), ..bus })
            &&& are_checked_again(turn.actions, w.stashed)
        }),
        ({
            let w = bus.wickets[h];
            let turn = spawn_timeout_turn(bus, w.host);
            if w.state == WicketState::Starting {
                &&& turn.bus == (BusV { wickets: turn.bus.wickets, ..bus })
                &&& turn.bus.wickets.len() == bus.wickets.len()
                &&& turn.bus.wickets[h].host == w.host
                &&& turn.bus.wickets[h].state == WicketState::Disconnected
                &&& turn.bus.wickets[h].stashed.len() == 0
                &&& forall|k: int|
                    0 <= k < bus.wickets.len() && k != h ==> #[trigger] turn.bus.wickets[k]
                        == bus.wickets[k]
                &&& are_checked_again(turn.actions, w.stashed)
            } else {
                turn.bus == bus && turn.actions.len() == 0
            }
        }),
{
    lemma_wicket_at(bus.wickets, h);
}

/// A host without a Wicket has nothing to lose.
pub proof fn law_a_host_without_a_wicket_changes_nothing(
    bus: BusV,
    host: Seq<char>,
    error: Seq<char>,
)
    requires
        forall|k: int| 0 <= k < bus.wickets.len() ==> (#[trigger] bus.wickets[k]).host != host,
    ensures
        spawn_failed_turn(bus, host, error).bus == bus,
        spawn_failed_turn(bus, host, error).actions.len() == 0,
        exited_turn(bus, host).bus == bus,
        exited_turn(bus, host).actions.len() == 0,
        spawn_timeout_turn(bus, host).bus == bus,
        spawn_timeout_turn(bus, host).actions.len() == 0,
{
    lemma_wicket_place(bus.wickets, host);
}

} // verus!
