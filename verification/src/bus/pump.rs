//! The pump: takes one event after the other and says what has to be done.
//!
//! The owner performs the actions in their order. Where a Wicket is to be
//! spawned, it reports the outcome with [`Pump::spawned`] or
//! [`Pump::spawn_failed`] before the next event.

use crate::bus::model::{
    accepted, all_serving, call_timeout_turn, call_turn, claim, claim_place, completion,
    connect_turn, disconnected_turn, dispatch, dispatch_value, effect_turn, effects_turn,
    ensured_turn, exited_turn, failed, hang_ups, hung_up, idle, object_members, other_calls,
    other_claims, packet_text, query_turn, rechecks, response_turn, routed_turn, running,
    running_place, screenshot_turn, serving, socket, socket_place, spawn_error, spawn_failed_turn,
    spawn_failure, spawn_timeout_turn, spawned_turn, start_wicket, stash, steered_turn, tick_turn,
    tool_sets, wanted_place, wicket, wicket_place, with_socket, without_client, ActionV, BusV,
    PendingV, QueuedV, ResultV, RunningV, SocketV, TimerV, ToolCallV, Turn, WicketState, WicketV,
    CALL_TIMEOUT, SPAWN_TIMEOUT,
};
use crate::bus::tools::{all_offered, describe_tools, listing_text, offered, sets_of, ToolSet};
use crate::gateway::ToolResult;
use crate::json::{members, Json, Val};
use crate::protocol::text_view;
use crate::screenshot::model::{
    generation, held_output, routed, sizes_of, sound, EffectV, Sizes, LAST_INSTANT, MAX_PACKET_BYTES,
};
use crate::screenshot::router::{json_view, measure, seen, Effect, Router};
use crate::serial::{read, render};
use crate::text::{bytes_in, joined, same_text};
use vstd::prelude::*;

verus! {

/// A call of a function. The ticket is for its answer.
#[derive(Debug)]
pub struct ToolCall {
    pub call_id: String,
    pub slug: String,
    pub tool: String,
    pub args: Json,
    pub ticket: u64,
}

impl ToolCall {
    pub open spec fn view(&self) -> ToolCallV {
        ToolCallV {
            call_id: self.call_id@,
            slug: self.slug@,
            tool: self.tool@,
            args: self.args@,
            ticket: self.ticket,
        }
    }
}

/// What can wait for a Wicket.
#[derive(Debug)]
pub enum Pending {
    /// Someone asks what functions there are.
    Query { ticket: u64 },
    /// A function is called.
    Call(ToolCall),
    /// A function is called whose client is there.
    Ensured(ToolCall),
}

impl Pending {
    pub open spec fn view(&self) -> PendingV {
        match self {
            Pending::Query { ticket } => PendingV::Query(*ticket),
            Pending::Call(call) => PendingV::Call(call@),
            Pending::Ensured(call) => PendingV::Ensured(call@),
        }
    }
}

/// What waits in the queue of the owner.
#[derive(Debug)]
pub enum Queued {
    /// To be checked first.
    Check(Pending),
    /// To be handled.
    Pending(Pending),
    /// A claimed call, to be steered.
    Steered { call_id: String },
}

impl Queued {
    pub open spec fn view(&self) -> QueuedV {
        match self {
            Queued::Check(p) => QueuedV::Check(p@),
            Queued::Pending(p) => QueuedV::Pending(p@),
            Queued::Steered { call_id } => QueuedV::Steered(call_id@),
        }
    }
}

/// What a timer is for.
#[derive(Debug)]
pub enum Timer {
    Call { call_id: String },
    Spawn { host: String },
}

impl Timer {
    pub open spec fn view(&self) -> TimerV {
        match self {
            Timer::Call { call_id } => TimerV::Call(call_id@),
            Timer::Spawn { host } => TimerV::Spawn(host@),
        }
    }
}

/// The model of the answer of a tool.
pub open spec fn result_view(result: ToolResult) -> ResultV {
    ResultV {
        output: result.output@,
        exit_code: result.exit_code,
        changes: json_view(result.changes),
    }
}

/// What the owner has to do.
#[derive(Debug)]
pub enum Action {
    /// Put something at the end of the queue.
    Enqueue(Queued),
    /// Answer a question for the functions that there are.
    Tools { ticket: u64, text: String },
    /// Answer a call.
    Reply { ticket: u64, result: ToolResult },
    /// Start a Wicket on a host.
    Spawn { host: String },
    /// Set a timer, in milliseconds.
    Delay { ms: u64, timer: Timer },
    /// Send a message to a socket, if it is still there.
    Send { socket: u64, packet: Json },
    /// Close a socket.
    Close { socket: u64 },
    /// Record a fact.
    Observe(Json),
}

impl Action {
    pub open spec fn view(&self) -> ActionV {
        match self {
            Action::Enqueue(q) => ActionV::Enqueue(q@),
            Action::Tools { ticket, text } => ActionV::Tools(*ticket, text@),
            Action::Reply { ticket, result } => ActionV::Reply(*ticket, result_view(*result)),
            Action::Spawn { host } => ActionV::Spawn(host@),
            Action::Delay { ms, timer } => ActionV::Delay(*ms, timer@),
            Action::Send { socket, packet } => ActionV::Send(*socket, packet@),
            Action::Close { socket } => ActionV::Close(*socket),
            Action::Observe(fact) => ActionV::Observe(fact@),
        }
    }
}

/// The models of some actions.
pub open spec fn acts(actions: Seq<Action>) -> Seq<ActionV> {
    actions.map_values(|a: Action| a@)
}

/// The models of what waits.
pub open spec fn pendings(items: Seq<Pending>) -> Seq<PendingV> {
    items.map_values(|p: Pending| p@)
}

struct Running {
    call: ToolCall,
    client_id: u64,
}

impl Running {
    spec fn view(&self) -> RunningV {
        RunningV { call: self.call@, client_id: self.client_id }
    }
}

struct Socket {
    id: u64,
    who: Option<String>,
    place: String,
    tools: Option<ToolSet>,
}

impl Socket {
    spec fn view(&self) -> SocketV {
        SocketV {
            id: self.id,
            who: text_view(self.who),
            place: self.place@,
            tools: match self.tools {
                Some(set) => Some(offered(set)),
                None => None,
            },
        }
    }
}

struct Wicket {
    host: String,
    state: WicketState,
    stashed: Vec<Pending>,
}

impl Wicket {
    spec fn view(&self) -> WicketV {
        WicketV { host: self.host@, state: self.state, stashed: pendings(self.stashed@) }
    }
}

spec fn sockets_of(items: Seq<Socket>) -> Seq<SocketV> {
    items.map_values(|s: Socket| s@)
}

spec fn claims_of(items: Seq<ToolCall>) -> Seq<ToolCallV> {
    items.map_values(|c: ToolCall| c@)
}

spec fn calls_of(items: Seq<Running>) -> Seq<RunningV> {
    items.map_values(|r: Running| r@)
}

spec fn wickets_of(items: Seq<Wicket>) -> Seq<WicketV> {
    items.map_values(|w: Wicket| w@)
}

/// The sockets, the calls, the Wickets and the routes of screenshots.
pub struct Pump {
    sockets: Vec<Socket>,
    claims: Vec<ToolCall>,
    calls: Vec<Running>,
    wickets: Vec<Wicket>,
    router: Router,
    next_client: u64,
}

// ---------------------------------------------------------------------------
// Pieces
// ---------------------------------------------------------------------------

fn push(actions: &mut Vec<Action>, action: Action)
    ensures
        acts(final(actions)@) == acts(old(actions)@).push(action@),
{
    let ghost before = actions@;
    actions.push(action);
    assert(acts(actions@) =~= acts(before).push(action@));
}

fn nothing() -> (actions: Vec<Action>)
    ensures
        acts(actions@) == Seq::<ActionV>::empty(),
{
    let actions: Vec<Action> = Vec::new();
    assert(acts(actions@) =~= Seq::<ActionV>::empty());
    actions
}

fn one(action: Action) -> (actions: Vec<Action>)
    ensures
        acts(actions@) == seq![action@],
{
    let mut actions: Vec<Action> = nothing();
    push(&mut actions, action);
    assert(acts(actions@) =~= seq![action@]);
    actions
}

fn failure(output: String) -> (result: ToolResult)
    ensures
        result_view(result) == failed(output@),
{
    ToolResult { output, exit_code: 1, changes: None }
}

fn packet_output(packet: &Json) -> (text: String)
    ensures
        text@ == packet_text(packet@),
{
    match render(packet) {
        Some(text) => text,
        None => String::new(),
    }
}

/// Takes out the claim with an identity.
fn take_claim(claims: &mut Vec<ToolCall>, id: &str) -> (found: Option<ToolCall>)
    ensures
        match found {
            Some(c) => claim(claims_of(old(claims)@), id@) == Some(c@),
            None => claim(claims_of(old(claims)@), id@) is None,
        },
        claims_of(final(claims)@) == other_claims(claims_of(old(claims)@), id@),
{
    let ghost all = claims_of(claims@);
    let mut i: usize = claims.len();
    assert(all.take(i as int) =~= all);
    while i > 0
        invariant
            i <= claims@.len(),
            all == claims_of(claims@),
            claims@ == old(claims)@,
            claim_place(all, id@) == claim_place(all.take(i as int), id@),
        decreases i,
    {
        i -= 1;
        assert(all.take(i + 1).drop_last() =~= all.take(i as int));
        assert(all.take(i + 1).last() == claims@[i as int]@);
        if same_text(claims[i].call_id.as_str(), id) {
            let found = claims.remove(i);
            assert(claims_of(claims@) =~= all.remove(i as int));
            return Some(found);
        }
    }
    None
}

fn running_at(calls: &Vec<Running>, id: &str) -> (place: Option<usize>)
    ensures
        match place {
            Some(i) => i < calls@.len() && running_place(calls_of(calls@), id@) == Some(i as int)
                && calls_of(calls@)[i as int] == calls@[i as int]@,
            None => running_place(calls_of(calls@), id@) is None,
        },
{
    let ghost all = calls_of(calls@);
    let mut i: usize = calls.len();
    assert(all.take(i as int) =~= all);
    while i > 0
        invariant
            i <= calls@.len(),
            all == calls_of(calls@),
            running_place(all, id@) == running_place(all.take(i as int), id@),
        decreases i,
    {
        i -= 1;
        assert(all.take(i + 1).drop_last() =~= all.take(i as int));
        assert(all.take(i + 1).last() == calls@[i as int]@);
        if same_text(calls[i].call.call_id.as_str(), id) {
            return Some(i);
        }
    }
    None
}

/// Takes out the dispatched call with an identity.
fn take_call(calls: &mut Vec<Running>, id: &str) -> (found: Option<Running>)
    ensures
        match found {
            Some(r) => running(calls_of(old(calls)@), id@) == Some(r@),
            None => running(calls_of(old(calls)@), id@) is None,
        },
        calls_of(final(calls)@) == other_calls(calls_of(old(calls)@), id@),
{
    match running_at(calls, id) {
        Some(i) => {
            let found = calls.remove(i);
            assert(calls_of(calls@) =~= calls_of(old(calls)@).remove(i as int));
            Some(found)
        },
        None => None,
    }
}

fn wicket_at(wickets: &Vec<Wicket>, host: &str) -> (place: Option<usize>)
    ensures
        match place {
            Some(i) => i < wickets@.len() && wicket_place(wickets_of(wickets@), host@) == Some(
                i as int,
            ) && wickets_of(wickets@)[i as int] == wickets@[i as int]@ && wickets@[i as int].host@
                == host@,
            None => wicket_place(wickets_of(wickets@), host@) is None,
        },
{
    let ghost all = wickets_of(wickets@);
    let mut i: usize = wickets.len();
    assert(all.take(i as int) =~= all);
    while i > 0
        invariant
            i <= wickets@.len(),
            all == wickets_of(wickets@),
            wicket_place(all, host@) == wicket_place(all.take(i as int), host@),
        decreases i,
    {
        i -= 1;
        assert(all.take(i + 1).drop_last() =~= all.take(i as int));
        assert(all.take(i + 1).last() == wickets@[i as int]@);
        if same_text(wickets[i].host.as_str(), host) {
            return Some(i);
        }
    }
    None
}

fn socket_at(sockets: &Vec<Socket>, id: u64) -> (place: Option<usize>)
    ensures
        match place {
            Some(i) => i < sockets@.len() && socket_place(sockets_of(sockets@), id) == Some(
                i as int,
            ) && sockets_of(sockets@)[i as int] == sockets@[i as int]@ && sockets@[i as int].id
                == id,
            None => socket_place(sockets_of(sockets@), id) is None,
        },
{
    let ghost all = sockets_of(sockets@);
    let mut i: usize = sockets.len();
    assert(all.take(i as int) =~= all);
    while i > 0
        invariant
            i <= sockets@.len(),
            all == sockets_of(sockets@),
            socket_place(all, id) == socket_place(all.take(i as int), id),
        decreases i,
    {
        i -= 1;
        assert(all.take(i + 1).drop_last() =~= all.take(i as int));
        assert(all.take(i + 1).last() == sockets@[i as int]@);
        if sockets[i].id == id {
            return Some(i);
        }
    }
    None
}

impl Socket {
    fn serves(&self, who: &str, place: &str) -> (is: bool)
        ensures
            is == (self@.who == Some(who@) && self@.place == place@),
    {
        let named: bool = match &self.who {
            Some(w) => same_text(w.as_str(), who),
            None => false,
        };
        named && same_text(self.place.as_str(), place)
    }
}

fn find_serving(sockets: &Vec<Socket>, who: &str, place: &str) -> (id: Option<u64>)
    ensures
        id == serving(sockets_of(sockets@), who@, place@),
{
    let ghost all = sockets_of(sockets@);
    let mut i: usize = 0;
    assert(all.take(0) =~= Seq::<SocketV>::empty());
    while i < sockets.len()
        invariant
            i <= sockets@.len(),
            all == sockets_of(sockets@),
            serving(all.take(i as int), who@, place@) is None,
        decreases sockets@.len() - i,
    {
        assert(all.take(i + 1).drop_last() =~= all.take(i as int));
        assert(all.take(i + 1).last() == sockets@[i as int]@);
        if sockets[i].serves(who, place) {
            proof {
                lemma_serving_stays(all, who@, place@, i + 1);
            }
            return Some(sockets[i].id);
        }
        i += 1;
    }
    assert(all.take(i as int) =~= all);
    None
}

proof fn lemma_serving_stays(all: Seq<SocketV>, who: Seq<char>, place: Seq<char>, n: int)
    requires
        0 <= n <= all.len(),
        serving(all.take(n), who, place) is Some,
    ensures
        serving(all, who, place) == serving(all.take(n), who, place),
    decreases all.len() - n,
{
    if n == all.len() {
        assert(all.take(n) =~= all);
    } else {
        assert(all.take(n + 1).drop_last() =~= all.take(n));
        lemma_serving_stays(all, who, place, n + 1);
    }
}

fn find_all_serving(sockets: &Vec<Socket>, who: &str, place: &str) -> (ids: Vec<u64>)
    ensures
        ids@ == all_serving(sockets_of(sockets@), who@, place@),
{
    let ghost all = sockets_of(sockets@);
    let mut ids: Vec<u64> = Vec::new();
    let mut i: usize = 0;
    assert(all.take(0) =~= Seq::<SocketV>::empty());
    while i < sockets.len()
        invariant
            i <= sockets@.len(),
            all == sockets_of(sockets@),
            ids@ == all_serving(all.take(i as int), who@, place@),
        decreases sockets@.len() - i,
    {
        assert(all.take(i + 1).drop_last() =~= all.take(i as int));
        assert(all.take(i + 1).last() == sockets@[i as int]@);
        if sockets[i].serves(who, place) {
            ids.push(sockets[i].id);
        }
        i += 1;
    }
    assert(all.take(i as int) =~= all);
    ids
}

fn describe(sockets: &Vec<Socket>) -> (text: String)
    ensures
        text@ == listing_text(all_offered(tool_sets(sockets_of(sockets@)))),
{
    let ghost all = sockets_of(sockets@);
    let mut sets: Vec<&ToolSet> = Vec::new();
    let mut i: usize = 0;
    proof {
        assert(all.take(0) =~= Seq::<SocketV>::empty());
        assert(sets_of(sets@) =~= tool_sets(all.take(0)));
    }
    while i < sockets.len()
        invariant
            i <= sockets@.len(),
            all == sockets_of(sockets@),
            sets_of(sets@) == tool_sets(all.take(i as int)),
        decreases sockets@.len() - i,
    {
        assert(all.take(i + 1).drop_last() =~= all.take(i as int));
        assert(all.take(i + 1).last() == sockets@[i as int]@);
        match &sockets[i].tools {
            Some(set) => {
                let ghost before = sets@;
                sets.push(set);
                assert(sets_of(sets@) =~= sets_of(before).push(offered(*set)));
            },
            None => {},
        }
        i += 1;
    }
    assert(all.take(i as int) =~= all);
    describe_tools(&sets)
}

/// The members of an argument list override those of the head.
proof fn lemma_members_union(head: Map<Seq<char>, Val>, items: Seq<(String, Json)>)
    requires
        items.len() > 0,
    ensures
        head.union_prefer_right(members(items)) == head.union_prefer_right(
            members(items.drop_last()),
        ).insert(items.last().0@, items.last().1@),
{
    assert(head.union_prefer_right(members(items)) =~= head.union_prefer_right(
        members(items.drop_last()),
    ).insert(items.last().0@, items.last().1@));
}

fn dispatch_packet(call: &ToolCall) -> (packet: Json)
    ensures
        packet@ == dispatch_value(call@),
{
    proof {
        reveal_strlit("");
        assert(""@ =~= Seq::<char>::empty());
    }
    let mut packet = Json::object().with("what", Json::text("tool")).with(
        "slug",
        Json::text(call.slug.as_str()),
    ).with("transcript", Json::text("")).with("why", Json::text("run")).with(
        "call_id",
        Json::text(call.call_id.as_str()),
    );
    let ghost head = object_members(packet@);
    assert(head.union_prefer_right(Map::<Seq<char>, Val>::empty()) =~= head);
    match call.args.get("args") {
        Some(inner) => match inner {
            Json::Object(items) => {
                let mut i: usize = 0;
                assert(items@.take(0) =~= Seq::<(String, Json)>::empty());
                while i < items.len()
                    invariant
                        i <= items@.len(),
                        packet@ == Val::Object(
                            head.union_prefer_right(members(items@.take(i as int))),
                        ),
                    decreases items@.len() - i,
                {
                    proof {
                        let more = items@.take(i + 1);
                        assert(more.drop_last() =~= items@.take(i as int));
                        lemma_members_union(head, more);
                    }
                    packet = packet.with(items[i].0.as_str(), items[i].1.copy());
                    i += 1;
                }
                assert(items@.take(i as int) =~= items@);
            },
            _ => {},
        },
        None => {},
    }
    packet.with("f", Json::text(call.args.named("f")))
}

fn place_wanted(args: &Json) -> (place: Option<&str>)
    ensures
        match place {
            Some(p) => wanted_place(args@) == Some(p@),
            None => wanted_place(args@) is None,
        },
{
    match args.get("args") {
        Some(inner) => inner.text_at("where"),
        None => None,
    }
}

fn spawn_error_text(host: &str, error: &str) -> (text: String)
    ensures
        text@ == spawn_error(host@, error@),
{
    joined(joined(joined("failed to spawn wicket on ", host).as_str(), ": ").as_str(), error)
}

fn hung_up_result(args: &Json, place: &str) -> (result: ToolResult)
    ensures
        result_view(result) == hung_up(args@, place@),
{
    let who: &str = match args.text_at("who") {
        Some(w) => w,
        None => "unknown",
    };
    let at: &str = match place_wanted(args) {
        Some(p) => p,
        None => place,
    };
    if same_text(who, "wicket") {
        failure(
            joined(
                joined("wicket on ", at).as_str(),
                " hung up while running tool call; command may or may not have completed",
            ),
        )
    } else {
        failure(
            joined(
                joined(
                    joined(joined("client who=", who).as_str(), " where=").as_str(),
                    at,
                ).as_str(),
                " hung up while running tool call; operation may or may not have completed",
            ),
        )
    }
}

fn completed(packet: &Json) -> (result: ToolResult)
    ensures
        result_view(result) == completion(packet@),
{
    ToolResult {
        output: packet_output(packet),
        exit_code: if packet.says("why", "stored") {
            0
        } else {
            1
        },
        changes: None,
    }
}

/// Turns the effects of the router into actions.
fn apply(calls: &mut Vec<Running>, effects: Vec<Effect>, actions: &mut Vec<Action>)
    ensures
        ({
            let (left, more) = effects_turn(calls_of(old(calls)@), seen(effects@));
            &&& calls_of(final(calls)@) == left
            &&& acts(final(actions)@) == acts(old(actions)@) + more
        }),
{
    let ghost start = calls_of(calls@);
    let ghost done = acts(actions@);
    let ghost all = effects@;
    proof {
        assert(seen(all.take(0)) =~= Seq::<EffectV>::empty());
        assert(done + Seq::<ActionV>::empty() =~= done);
    }
    for effect in it: effects
        invariant
            it.seq() == all,
            calls_of(calls@) == effects_turn(start, seen(all.take(it.index() as int))).0,
            acts(actions@) == done + effects_turn(start, seen(all.take(it.index() as int))).1,
    {
        let ghost k = it.index() as int;
        let ghost before = acts(actions@);
        let ghost earlier = effects_turn(start, seen(all.take(k)));
        proof {
            let more = seen(all.take(k + 1));
            assert(more.drop_last() =~= seen(all.take(k)));
            assert(more.last() == effect@);
        }
        match effect {
            Effect::Send { socket, packet } => {
                push(actions, Action::Send { socket, packet });
            },
            Effect::Close { socket } => {
                push(actions, Action::Close { socket });
            },
            Effect::Observe(fact) => {
                push(actions, Action::Observe(fact));
            },
            Effect::Complete { call_id, packet } => {
                match take_call(calls, call_id.as_str()) {
                    Some(r) => {
                        push(
                            actions,
                            Action::Reply { ticket: r.call.ticket, result: completed(&packet) },
                        );
                    },
                    None => {},
                }
            },
        }
        proof {
            let (after, more) = effect_turn(earlier.0, effect@);
            assert(acts(actions@) =~= before + more);
            assert(acts(actions@) =~= done + (earlier.1 + more));
        }
    }
    assert(all.take(all.len() as int) =~= all);
}

fn recheck(stashed: Vec<Pending>) -> (actions: Vec<Action>)
    ensures
        acts(actions@) == rechecks(pendings(stashed@)),
{
    let ghost all = stashed@;
    let mut actions: Vec<Action> = nothing();
    assert(acts(actions@) =~= rechecks(pendings(all.take(0))));
    for p in it: stashed
        invariant
            it.seq() == all,
            acts(actions@) == rechecks(pendings(all.take(it.index() as int))),
    {
        let ghost k = it.index() as int;
        push(&mut actions, Action::Enqueue(Queued::Check(p)));
        assert(acts(actions@) =~= rechecks(pendings(all.take(k + 1))));
    }
    assert(all.take(all.len() as int) =~= all);
    actions
}

// ---------------------------------------------------------------------------
// The pump
// ---------------------------------------------------------------------------

impl Pump {
    pub closed spec fn view(&self) -> BusV {
        BusV {
            sockets: sockets_of(self.sockets@),
            claims: claims_of(self.claims@),
            calls: calls_of(self.calls@),
            wickets: wickets_of(self.wickets@),
            routes: self.router@,
            next_client: self.next_client,
        }
    }

    /// A bus without sockets.
    pub fn new() -> (pump: Pump)
        ensures
            pump@ == (BusV {
                sockets: Seq::empty(),
                claims: Seq::empty(),
                calls: Seq::empty(),
                wickets: Seq::empty(),
                routes: Seq::empty(),
                next_client: 0,
            }),
            sound(pump@.routes),
    {
        let pump = Pump {
            sockets: Vec::new(),
            claims: Vec::new(),
            calls: Vec::new(),
            wickets: Vec::new(),
            router: Router::new(),
            next_client: 0,
        };
        proof {
            assert(pump@.sockets =~= Seq::<SocketV>::empty());
            assert(pump@.claims =~= Seq::<ToolCallV>::empty());
            assert(pump@.calls =~= Seq::<RunningV>::empty());
            assert(pump@.wickets =~= Seq::<WicketV>::empty());
        }
        pump
    }

    /// Whether a socket is known.
    pub fn knows(&self, client_id: u64) -> (known: bool)
        ensures
            known == (socket(self@.sockets, client_id) is Some),
    {
        socket_at(&self.sockets, client_id).is_some()
    }

    /// The latest generation of the routes of screenshots.
    pub fn generation(&self) -> (latest: u64)
        ensures
            latest == generation(self@.routes),
    {
        self.router.generation()
    }

    /// A socket connects.
    pub fn accept(&mut self) -> (client_id: u64)
        requires
            old(self)@.next_client < u64::MAX,
        ensures
            final(self)@ == accepted(old(self)@),
            client_id == old(self)@.next_client,
    {
        let id: u64 = self.next_client;
        self.next_client = id + 1;
        self.sockets.push(
            Socket { id, who: None, place: "localhost".to_owned(), tools: None },
        );
        assert(self@.sockets =~= accepted(old(self)@).sockets);
        id
    }

    /// Puts an event behind the Wicket of a host.
    fn stash_at(&mut self, i: usize, waiting: Pending)
        requires
            i < old(self).wickets@.len(),
            wicket_place(old(self)@.wickets, old(self).wickets@[i as int].host@) == Some(i as int),
        ensures
            stash(old(self)@, old(self).wickets@[i as int]@, waiting@) == idle(final(self)@),
    {
        let ghost before = self.wickets@;
        let mut w = self.wickets.remove(i);
        let ghost stashed = w.stashed@;
        w.stashed.push(waiting);
        assert(pendings(w.stashed@) =~= pendings(stashed).push(waiting@));
        self.wickets.insert(i, w);
        assert(self@.wickets =~= wickets_of(before).update(i as int, w@));
    }

    fn start(&mut self, host: String, waiting: Pending) -> (actions: Vec<Action>)
        ensures
            start_wicket(old(self)@, host@, waiting@) == (Turn {
                bus: final(self)@,
                actions: acts(actions@),
            }),
    {
        let mut stashed: Vec<Pending> = Vec::new();
        stashed.push(waiting);
        assert(pendings(stashed@) =~= seq![waiting@]);
        self.wickets.push(
            Wicket { host: host.clone(), state: WicketState::Starting, stashed },
        );
        assert(self@.wickets =~= start_wicket(old(self)@, host@, waiting@).bus.wickets);
        one(Action::Spawn { host })
    }

    /// Someone asks what functions there are.
    pub fn tools_query(&mut self, ticket: u64) -> (actions: Vec<Action>)
        ensures
            query_turn(old(self)@, ticket) == (Turn { bus: final(self)@, actions: acts(actions@) }),
    {
        match wicket_at(&self.wickets, "localhost") {
            Some(i) => match self.wickets[i].state {
                WicketState::Starting => {
                    self.stash_at(i, Pending::Query { ticket });
                    nothing()
                },
                _ => one(Action::Tools { ticket, text: describe(&self.sockets) }),
            },
            None => self.start("localhost".to_owned(), Pending::Query { ticket }),
        }
    }

    /// A function is called.
    pub fn tool_call(&mut self, call: ToolCall) -> (actions: Vec<Action>)
        ensures
            call_turn(old(self)@, call@) == (Turn { bus: final(self)@, actions: acts(actions@) }),
    {
        if !same_text(call.args.named("who"), "wicket") {
            return one(Action::Enqueue(Queued::Pending(Pending::Ensured(call))));
        }
        let host: String = match place_wanted(&call.args) {
            Some(p) => p.to_owned(),
            None => return one(
                Action::Reply {
                    ticket: call.ticket,
                    result: failure("wicket tool call missing required where argument".to_owned()),
                },
            ),
        };
        match wicket_at(&self.wickets, host.as_str()) {
            Some(i) => match self.wickets[i].state {
                WicketState::Connected(_) => one(
                    Action::Enqueue(Queued::Pending(Pending::Ensured(call))),
                ),
                WicketState::Starting => {
                    self.stash_at(i, Pending::Ensured(call));
                    nothing()
                },
                WicketState::Disconnected => one(
                    Action::Reply {
                        ticket: call.ticket,
                        result: failure(
                            joined(joined("wicket on ", host.as_str()).as_str(), " disconnected"),
                        ),
                    },
                ),
            },
            None => self.start(host, Pending::Ensured(call)),
        }
    }

    /// The client of a call is there.
    pub fn tool_call_ensured(&mut self, call: ToolCall) -> (actions: Vec<Action>)
        ensures
            ensured_turn(old(self)@, call@) == (Turn {
                bus: final(self)@,
                actions: acts(actions@),
            }),
    {
        let call_id = call.call_id.clone();
        let _ = take_claim(&mut self.claims, call_id.as_str());
        let ghost before = self.claims@;
        self.claims.push(call);
        assert(claims_of(self.claims@) =~= claims_of(before).push(call@));
        one(Action::Enqueue(Queued::Steered { call_id }))
    }

    /// A claimed call is steered to its client.
    pub fn tool_steered(&mut self, call_id: &str, now: u64) -> (actions: Vec<Action>)
        requires
            sound(old(self)@.routes),
            now <= LAST_INSTANT,
        ensures
            steered_turn(old(self)@, call_id@, now) == (Turn {
                bus: final(self)@,
                actions: acts(actions@),
            }),
            sound(final(self)@.routes),
            generation(final(self)@.routes) <= generation(old(self)@.routes),
    {
        let ghost start = self@;
        let call: ToolCall = match take_claim(&mut self.claims, call_id) {
            Some(c) => c,
            None => return nothing(),
        };
        proof {
            lemma_claim(start.claims, call_id@);
        }
        let who: &str = call.args.named("who");
        let place: &str = match place_wanted(&call.args) {
            Some(p) => p,
            None => "localhost",
        };
        let client_id: u64 = match find_serving(&self.sockets, who, place) {
            Some(id) => id,
            None => return one(
                Action::Reply {
                    ticket: call.ticket,
                    result: failure(
                        joined(
                            joined(
                                joined("no connected client for who=", who).as_str(),
                                " where=",
                            ).as_str(),
                            place,
                        ),
                    ),
                },
            ),
        };
        if same_text(who, "shotgun") && same_text(call.args.named("f"), "screenshot_save") {
            match self.router.register(call_id, client_id, call.slug.as_str(), &call.args, now) {
                Ok(_) => {},
                Err(reason) => return one(
                    Action::Reply { ticket: call.ticket, result: failure(reason.to_owned()) },
                ),
            }
        }
        let mut actions = one(Action::Send { socket: client_id, packet: dispatch_packet(&call) });
        push(
            &mut actions,
            Action::Delay { ms: CALL_TIMEOUT, timer: Timer::Call { call_id: call_id.to_owned() } },
        );
        let _ = take_call(&mut self.calls, call_id);
        let ghost before = self.calls@;
        self.calls.push(Running { call, client_id });
        proof {
            assert(calls_of(self.calls@) =~= calls_of(before).push(
                RunningV { call: call@, client_id },
            ));
            assert(acts(actions@) =~= dispatch(start, call@, client_id, self@.routes).actions);
        }
        actions
    }

    /// A socket answers a call, where `held` is the value that a screenshot save
    /// has as its answer, if it has one.
    pub fn response_holding(
        &mut self,
        client_id: u64,
        call_id: &str,
        result: ToolResult,
        held: Option<&Json>,
    ) -> (actions: Vec<Action>)
        requires
            sound(old(self)@.routes),
            generation(old(self)@.routes) < u64::MAX,
        ensures
            response_turn(
                old(self)@,
                client_id,
                call_id@,
                result_view(result),
                match held {
                    Some(v) => Some(v@),
                    None => None,
                },
            ) == (Turn { bus: final(self)@, actions: acts(actions@) }),
            sound(final(self)@.routes),
            generation(final(self)@.routes) <= generation(old(self)@.routes),
    {
        match running_at(&self.calls, call_id) {
            Some(i) => {
                if self.calls[i].client_id != client_id {
                    return nothing();
                }
                if !self.router.contains(call_id) {
                    let r = self.calls.remove(i);
                    assert(self@.calls =~= old(self)@.calls.remove(i as int));
                    return one(Action::Reply { ticket: r.call.ticket, result });
                }
                match self.router.checked_result(call_id, held) {
                    Ok(packet) => {
                        let r = self.calls.remove(i);
                        assert(self@.calls =~= old(self)@.calls.remove(i as int));
                        self.router.remove(call_id);
                        one(
                            Action::Reply {
                                ticket: r.call.ticket,
                                result: ToolResult {
                                    output: packet_output(&packet),
                                    exit_code: result.exit_code,
                                    changes: None,
                                },
                            },
                        )
                    },
                    Err(reason) => {
                        let effects = self.router.end(call_id, reason, false);
                        self.routed(effects)
                    },
                }
            },
            None => nothing(),
        }
    }

    /// A socket answers a call.
    pub fn response(&mut self, client_id: u64, call_id: &str, result: ToolResult) -> (actions: Vec<
        Action,
    >)
        requires
            sound(old(self)@.routes),
            generation(old(self)@.routes) < u64::MAX,
        ensures
            response_turn(
                old(self)@,
                client_id,
                call_id@,
                result_view(result),
                held_output(result.output@),
            ) == (Turn { bus: final(self)@, actions: acts(actions@) }),
            sound(final(self)@.routes),
            generation(final(self)@.routes) <= generation(old(self)@.routes),
    {
        if !self.router.contains(call_id) || bytes_in(result.output.as_str()) > MAX_PACKET_BYTES {
            return self.response_holding(client_id, call_id, result, None);
        }
        match read(result.output.as_str()) {
            Some(v) => self.response_holding(client_id, call_id, result, Some(&v)),
            None => self.response_holding(client_id, call_id, result, None),
        }
    }

    /// Turns the effects of the router into actions.
    fn routed(&mut self, effects: Vec<Effect>) -> (actions: Vec<Action>)
        ensures
            routed_turn(old(self)@, old(self)@.routes, seen(effects@)) == (Turn {
                bus: final(self)@,
                actions: acts(actions@),
            }),
    {
        let mut actions = nothing();
        apply(&mut self.calls, effects, &mut actions);
        assert(acts(actions@) =~= routed_turn(
            old(self)@,
            old(self)@.routes,
            seen(effects@),
        ).actions);
        actions
    }

    /// A call has taken too long.
    pub fn call_timeout(&mut self, call_id: &str) -> (actions: Vec<Action>)
        requires
            sound(old(self)@.routes),
            generation(old(self)@.routes) < u64::MAX,
        ensures
            call_timeout_turn(old(self)@, call_id@) == (Turn {
                bus: final(self)@,
                actions: acts(actions@),
            }),
            sound(final(self)@.routes),
            generation(final(self)@.routes) <= generation(old(self)@.routes),
    {
        match running_at(&self.calls, call_id) {
            Some(i) => {
                if self.router.contains(call_id) {
                    let effects = self.router.end(call_id, "tool call timed out", true);
                    return self.routed(effects);
                }
                let r = self.calls.remove(i);
                assert(self@.calls =~= old(self)@.calls.remove(i as int));
                one(
                    Action::Reply {
                        ticket: r.call.ticket,
                        result: failure("tool call timed out".to_owned()),
                    },
                )
            },
            None => nothing(),
        }
    }

    /// A socket says who it is, where, and what functions it offers.
    pub fn connect(&mut self, client_id: u64, place: Option<String>, tools: ToolSet) -> (actions: Vec<
        Action,
    >)
        requires
            socket(old(self)@.sockets, client_id) is Some,
            tools.who@ == "wicket"@ ==> place is Some,
        ensures
            connect_turn(
                old(self)@,
                client_id,
                tools.who@,
                text_view(place),
                offered(tools),
            ) == (Turn { bus: final(self)@, actions: acts(actions@) }),
            final(self)@.routes == old(self)@.routes,
    {
        let who: String = tools.who.clone();
        let at: String = match &place {
            Some(p) => p.clone(),
            None => "localhost".to_owned(),
        };
        match socket_at(&self.sockets, client_id) {
            Some(i) => {
                let ghost before = self.sockets@;
                self.sockets.set(
                    i,
                    Socket {
                        id: client_id,
                        who: Some(who.clone()),
                        place: at,
                        tools: Some(tools),
                    },
                );
                assert(self@.sockets =~= with_socket(
                    sockets_of(before),
                    self.sockets@[i as int]@,
                ));
            },
            None => {},
        }
        if !same_text(who.as_str(), "wicket") {
            return nothing();
        }
        let host: String = match place {
            Some(p) => p,
            None => return nothing(),
        };
        let nobody: Vec<Pending> = Vec::new();
        assert(pendings(nobody@) =~= Seq::<PendingV>::empty());
        match wicket_at(&self.wickets, host.as_str()) {
            Some(i) => {
                let ghost before = self.wickets@;
                let w = self.wickets.remove(i);
                self.wickets.insert(
                    i,
                    Wicket { host, state: WicketState::Connected(client_id), stashed: nobody },
                );
                assert(self@.wickets =~= wickets_of(before).update(
                    i as int,
                    self.wickets@[i as int]@,
                ));
                recheck(w.stashed)
            },
            None => {
                let ghost before = self.wickets@;
                self.wickets.push(
                    Wicket { host, state: WicketState::Connected(client_id), stashed: nobody },
                );
                assert(self@.wickets =~= wickets_of(before).push(
                    self.wickets@[before.len() as int]@,
                ));
                nothing()
            },
        }
    }

    /// A socket is gone.
    pub fn disconnected(&mut self, client_id: u64) -> (actions: Vec<Action>)
        requires
            sound(old(self)@.routes),
            generation(old(self)@.routes) < u64::MAX,
        ensures
            disconnected_turn(old(self)@, client_id) == (Turn {
                bus: final(self)@,
                actions: acts(actions@),
            }),
            sound(final(self)@.routes),
            generation(final(self)@.routes) <= generation(old(self)@.routes),
    {
        let ghost start = self@;
        let place: String = match socket_at(&self.sockets, client_id) {
            Some(i) => {
                let gone = self.sockets.remove(i);
                assert(self@.sockets =~= start.sockets.remove(i as int));
                gone.place
            },
            None => "unknown".to_owned(),
        };
        let effects = self.router.disconnected(client_id);
        let mut actions = nothing();
        apply(&mut self.calls, effects, &mut actions);
        self.hang_up_wickets(client_id);
        self.hang_up_calls(client_id, place.as_str(), &mut actions);
        assert(acts(actions@) =~= disconnected_turn(start, client_id).actions);
        actions
    }

    fn hang_up_wickets(&mut self, client_id: u64)
        ensures
            final(self)@ == (BusV {
                wickets: without_client(old(self)@.wickets, client_id),
                ..old(self)@
            }),
    {
        let ghost start = self.wickets@;
        let ghost rest = *self;
        let mut i: usize = 0;
        while i < self.wickets.len()
            invariant
                i <= self.wickets@.len(),
                self.wickets@.len() == start.len(),
                self.sockets == rest.sockets,
                self.claims == rest.claims,
                self.calls == rest.calls,
                self.router == rest.router,
                self.next_client == rest.next_client,
                forall|k: int|
                    0 <= k < start.len() ==> (#[trigger] self.wickets@[k])@ == if k < i {
                        without_client(wickets_of(start), client_id)[k]
                    } else {
                        start[k]@
                    },
            decreases self.wickets@.len() - i,
        {
            let hangs: bool = match self.wickets[i].state {
                WicketState::Connected(c) => c == client_id,
                _ => false,
            };
            if hangs {
                let ghost before = self.wickets@;
                let mut w = self.wickets.remove(i);
                w.state = WicketState::Disconnected;
                self.wickets.insert(i, w);
                assert(self.wickets@ =~= before.update(i as int, w));
            }
            i += 1;
        }
        assert(self@.wickets =~= without_client(wickets_of(start), client_id));
    }

    fn hang_up_calls(&mut self, client_id: u64, place: &str, actions: &mut Vec<Action>)
        ensures
            final(self)@ == (BusV {
                calls: old(self)@.calls.filter(|r: RunningV| r.client_id != client_id),
                ..old(self)@
            }),
            acts(final(actions)@) == acts(old(actions)@) + hang_ups(
                old(self)@.calls,
                client_id,
                place@,
            ),
    {
        let ghost start = self@.calls;
        let ghost rest = *self;
        let ghost done = acts(actions@);
        let ghost stays = |r: RunningV| r.client_id != client_id;
        let ghost mut k: int = 0;
        let mut i: usize = 0;
        proof {
            reveal(Seq::filter);
            assert(start.take(0).filter(stays) =~= Seq::<RunningV>::empty());
            assert(start.skip(0) =~= start);
            assert(start.take(0).filter(stays) + start.skip(0) =~= start);
            assert(done + hang_ups(start.take(0), client_id, place@) =~= done);
        }
        while i < self.calls.len()
            invariant
                0 <= k <= start.len(),
                stays == |r: RunningV| r.client_id != client_id,
                i == start.take(k).filter(stays).len(),
                calls_of(self.calls@) == start.take(k).filter(stays) + start.skip(k),
                acts(actions@) == done + hang_ups(start.take(k), client_id, place@),
                self.sockets == rest.sockets,
                self.claims == rest.claims,
                self.wickets == rest.wickets,
                self.router == rest.router,
                self.next_client == rest.next_client,
            decreases start.len() - k,
        {
            let ghost c = start[k];
            let ghost kept = start.take(k).filter(stays);
            let ghost prior = self.calls@;
            proof {
                reveal(Seq::filter);
                assert(calls_of(self.calls@)[i as int] == c);
                assert(self.calls@[i as int]@ == c);
                assert(start.take(k + 1).drop_last() =~= start.take(k));
                assert(start.take(k + 1).last() == c);
            }
            if self.calls[i].client_id == client_id {
                let r = self.calls.remove(i);
                let ghost before = acts(actions@);
                push(
                    actions,
                    Action::Reply {
                        ticket: r.call.ticket,
                        result: hung_up_result(&r.call.args, place),
                    },
                );
                proof {
                    assert(calls_of(self.calls@) =~= calls_of(prior).remove(i as int));
                    assert(calls_of(self.calls@) =~= kept + start.skip(k + 1));
                    assert(acts(actions@) =~= done + hang_ups(
                        start.take(k + 1),
                        client_id,
                        place@,
                    ));
                }
            } else {
                assert(calls_of(self.calls@) =~= kept.push(c) + start.skip(k + 1));
                i += 1;
            }
            proof {
                k = k + 1;
            }
        }
        proof {
            assert(k == start.len());
            assert(start.take(k) =~= start);
            assert(calls_of(self.calls@) =~= start.filter(stays));
        }
    }

    /// A packet of a screenshot save, where `sizes` says what is known of the sizes
    /// of its texts.
    pub fn sized_screenshot(&mut self, client_id: u64, data: &Json, sizes: Sizes, now: u64) -> (actions:
        Vec<Action>)
        requires
            sound(old(self)@.routes),
            generation(old(self)@.routes) < u64::MAX - 1,
            now <= LAST_INSTANT,
        ensures
            screenshot_turn(old(self)@, client_id, data@, sizes, now) == (Turn {
                bus: final(self)@,
                actions: acts(actions@),
            }),
            sound(final(self)@.routes),
            generation(final(self)@.routes) <= generation(old(self)@.routes) + 1,
    {
        let writers = find_all_serving(&self.sockets, "wicket", "localhost");
        let effects = self.router.sized_packet(client_id, data, sizes, writers.as_slice(), now);
        let closing: bool = if effects.len() == 0 {
            false
        } else {
            matches!(effects[effects.len() - 1], Effect::Close { .. })
        };
        proof {
            if effects@.len() > 0 {
                assert(seen(effects@).last() == effects@[effects@.len() - 1]@);
            }
        }
        let mut actions = self.routed(effects);
        if closing {
            let more = self.disconnected(client_id);
            append(&mut actions, more);
        }
        actions
    }

    /// A packet of a screenshot save.
    pub fn screenshot(&mut self, client_id: u64, data: &Json, now: u64) -> (actions: Vec<Action>)
        requires
            sound(old(self)@.routes),
            generation(old(self)@.routes) < u64::MAX - 1,
            now <= LAST_INSTANT,
        ensures
            screenshot_turn(old(self)@, client_id, data@, sizes_of(data@), now) == (Turn {
                bus: final(self)@,
                actions: acts(actions@),
            }),
            sound(final(self)@.routes),
            generation(final(self)@.routes) <= generation(old(self)@.routes) + 1,
    {
        self.sized_screenshot(client_id, data, measure(data), now)
    }

    /// Time passes: routes whose deadlines have passed end.
    pub fn tick(&mut self, now: u64) -> (actions: Vec<Action>)
        requires
            sound(old(self)@.routes),
            generation(old(self)@.routes) < u64::MAX,
        ensures
            tick_turn(old(self)@, now) == (Turn { bus: final(self)@, actions: acts(actions@) }),
            sound(final(self)@.routes),
            generation(final(self)@.routes) <= generation(old(self)@.routes),
    {
        let effects = self.router.expired(now);
        self.routed(effects)
    }

    /// The process of a Wicket is there.
    pub fn spawned(&self, host: &str) -> (actions: Vec<Action>)
        ensures
            spawned_turn(self@, host@) == (Turn { bus: self@, actions: acts(actions@) }),
    {
        one(Action::Delay { ms: SPAWN_TIMEOUT, timer: Timer::Spawn { host: host.to_owned() } })
    }

    /// A Wicket cannot be started.
    pub fn spawn_failed(&mut self, host: &str, error: &str) -> (actions: Vec<Action>)
        ensures
            spawn_failed_turn(old(self)@, host@, error@) == (Turn {
                bus: final(self)@,
                actions: acts(actions@),
            }),
    {
        let ghost start = self@;
        let i: usize = match wicket_at(&self.wickets, host) {
            Some(i) => i,
            None => return nothing(),
        };
        let w = self.wickets.remove(i);
        assert(self@.wickets =~= start.wickets.remove(i as int));
        let mut actions = nothing();
        let ghost all = w.stashed@;
        let ghost answers = pendings(all).map_values(
            |p: PendingV| spawn_failure(start, host@, error@, p),
        );
        assert(acts(actions@) =~= answers.take(0));
        for p in it: w.stashed
            invariant
                it.seq() == all,
                self@.sockets == start.sockets,
                answers == pendings(all).map_values(
                    |p: PendingV| spawn_failure(start, host@, error@, p),
                ),
                acts(actions@) == answers.take(it.index() as int),
        {
            let ghost k = it.index() as int;
            assert(answers[k] == spawn_failure(start, host@, error@, p@));
            match p {
                Pending::Query { ticket } => {
                    push(
                        &mut actions,
                        Action::Tools { ticket, text: describe(&self.sockets) },
                    );
                },
                Pending::Call(call) => {
                    push(
                        &mut actions,
                        Action::Reply {
                            ticket: call.ticket,
                            result: failure(
                                spawn_error_text(host, spawn_error_text(host, error).as_str()),
                            ),
                        },
                    );
                },
                Pending::Ensured(call) => {
                    push(
                        &mut actions,
                        Action::Reply {
                            ticket: call.ticket,
                            result: failure(
                                spawn_error_text(host, spawn_error_text(host, error).as_str()),
                            ),
                        },
                    );
                },
            }
            assert(answers.take(k + 1) =~= answers.take(k).push(answers[k]));
        }
        assert(answers.take(all.len() as int) =~= answers);
        actions
    }

    /// The process of a Wicket has ended.
    pub fn wicket_exited(&mut self, host: &str) -> (actions: Vec<Action>)
        ensures
            exited_turn(old(self)@, host@) == (Turn { bus: final(self)@, actions: acts(actions@) }),
    {
        match wicket_at(&self.wickets, host) {
            Some(i) => {
                let w = self.wickets.remove(i);
                assert(self@.wickets =~= old(self)@.wickets.remove(i as int));
                recheck(w.stashed)
            },
            None => nothing(),
        }
    }

    /// A Wicket has taken too long to connect.
    pub fn spawn_timeout(&mut self, host: &str) -> (actions: Vec<Action>)
        ensures
            spawn_timeout_turn(old(self)@, host@) == (Turn {
                bus: final(self)@,
                actions: acts(actions@),
            }),
    {
        match wicket_at(&self.wickets, host) {
            Some(i) => {
                if self.wickets[i].state != WicketState::Starting {
                    return nothing();
                }
                let ghost before = self.wickets@;
                let w = self.wickets.remove(i);
                let nobody: Vec<Pending> = Vec::new();
                assert(pendings(nobody@) =~= Seq::<PendingV>::empty());
                self.wickets.insert(
                    i,
                    Wicket { host: w.host, state: WicketState::Disconnected, stashed: nobody },
                );
                assert(self@.wickets =~= wickets_of(before).update(
                    i as int,
                    self.wickets@[i as int]@,
                ));
                recheck(w.stashed)
            },
            None => nothing(),
        }
    }
}

fn append(actions: &mut Vec<Action>, more: Vec<Action>)
    ensures
        acts(final(actions)@) == acts(old(actions)@) + acts(more@),
{
    let ghost before = actions@;
    let mut rest = more;
    actions.append(&mut rest);
    assert(acts(actions@) =~= acts(before) + acts(more@));
}

/// A claim that is found has the identity that was looked for.
proof fn lemma_claim(claims: Seq<ToolCallV>, id: Seq<char>)
    ensures
        claim(claims, id) matches Some(c) ==> c.call_id == id,
    decreases claims.len(),
{
    if claims.len() > 0 && claims.last().call_id != id {
        lemma_claim(claims.drop_last(), id);
        lemma_claim_place(claims.drop_last(), id);
    }
}

proof fn lemma_claim_place(claims: Seq<ToolCallV>, id: Seq<char>)
    ensures
        claim_place(claims, id) matches Some(i) ==> 0 <= i < claims.len(),
    decreases claims.len(),
{
    if claims.len() > 0 && claims.last().call_id != id {
        lemma_claim_place(claims.drop_last(), id);
    }
}

/// What has to be done is seen as what it is.
pub proof fn law_actions_are_seen_as_they_are(action: Action)
    ensures
        match action {
            Action::Enqueue(q) => action@ == ActionV::Enqueue(q@),
            Action::Tools { ticket, text } => action@ == ActionV::Tools(ticket, text@),
            Action::Reply { ticket, result } => {
                &&& action@ matches ActionV::Reply(t, r)
                &&& t == ticket
                &&& r.output == result.output@
                &&& r.exit_code == result.exit_code
                &&& match result.changes {
                    Some(changes) => r.changes == Some(changes@),
                    None => r.changes is None,
                }
            },
            Action::Spawn { host } => action@ == ActionV::Spawn(host@),
            Action::Delay { ms, timer } => {
                &&& action@ matches ActionV::Delay(n, t)
                &&& n == ms
                &&& match timer {
                    Timer::Call { call_id } => t == TimerV::Call(call_id@),
                    Timer::Spawn { host } => t == TimerV::Spawn(host@),
                }
            },
            Action::Send { socket, packet } => action@ == ActionV::Send(socket, packet@),
            Action::Close { socket } => action@ == ActionV::Close(socket),
            Action::Observe(fact) => action@ == ActionV::Observe(fact@),
        },
{
}

/// What waits, and each call in it, is seen as what it is.
pub proof fn law_waiting_things_are_seen_as_they_are(queued: Queued, pending: Pending, call: ToolCall)
    ensures
        match queued {
            Queued::Check(p) => queued@ == QueuedV::Check(p@),
            Queued::Pending(p) => queued@ == QueuedV::Pending(p@),
            Queued::Steered { call_id } => queued@ == QueuedV::Steered(call_id@),
        },
        match pending {
            Pending::Query { ticket } => pending@ == PendingV::Query(ticket),
            Pending::Call(c) => pending@ == PendingV::Call(c@),
            Pending::Ensured(c) => pending@ == PendingV::Ensured(c@),
        },
        call@.call_id == call.call_id@,
        call@.slug == call.slug@,
        call@.tool == call.tool@,
        call@.args == call.args@,
        call@.ticket == call.ticket,
{
}

/// All that has to be done is seen, each thing at its place.
pub proof fn law_all_actions_are_seen(actions: Seq<Action>)
    ensures
        acts(actions).len() == actions.len(),
        forall|i: int| 0 <= i < actions.len() ==> #[trigger] acts(actions)[i] == actions[i]@,
{
}

} // verus!
