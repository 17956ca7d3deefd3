use easement::bus::model::{CALL_TIMEOUT, SPAWN_TIMEOUT};
use easement::bus::pump::{Action, Pending, Pump, Queued, Timer, ToolCall};
use easement::bus::timers::Timers;
use easement::bus::tools::{collect_tools, describe_tools, Tool, ToolSet};
use easement::gateway::ToolResult;
use easement::json::Json;
use easement::screenshot::model::Sizes;
use easement::serial::{read, render};

const NOW: u64 = 1_000_000_000_000;

fn value(text: &str) -> Json {
    read(text).unwrap()
}
fn tool(f: &str, description: &str) -> Tool {
    Tool { f: f.to_owned(), description: description.to_owned() }
}
fn tools(who: &str, names: &[&str]) -> ToolSet {
    ToolSet {
        who: who.to_owned(),
        tools: names.iter().map(|f| tool(f, "does things")).collect(),
    }
}
fn join(pump: &mut Pump, who: &str, place: &str) -> u64 {
    let id = pump.accept();
    let actions = pump.connect(id, Some(place.to_owned()), tools(who, &["f"]));
    assert!(actions.is_empty());
    id
}
fn call(id: &str, args: &str, ticket: u64) -> ToolCall {
    ToolCall {
        call_id: id.to_owned(),
        slug: "test".to_owned(),
        tool: "f".to_owned(),
        args: value(args),
        ticket,
    }
}
fn answer(output: &str) -> ToolResult {
    ToolResult { output: output.to_owned(), exit_code: 0, changes: None }
}
fn failure<'a>(actions: &'a [Action], n: usize, ticket: u64) -> &'a str {
    match &actions[n] {
        Action::Reply { ticket: t, result } => {
            assert_eq!((*t, result.exit_code), (ticket, 1));
            result.output.as_str()
        }
        other => panic!("expected an answer, got {other:?}"),
    }
}
/// Dispatches a call and gives back what is sent.
fn dispatch(pump: &mut Pump, c: ToolCall) -> (u64, Json) {
    let id = c.call_id.clone();
    let actions = pump.tool_call_ensured(c);
    assert!(matches!(&actions[..], [Action::Enqueue(Queued::Steered { call_id })] if *call_id == id));
    let mut actions = pump.tool_steered(&id, NOW);
    assert_eq!(actions.len(), 2);
    assert!(matches!(&actions[1], Action::Delay { ms: CALL_TIMEOUT, timer: Timer::Call { call_id } }
        if *call_id == id));
    match actions.remove(0) {
        Action::Send { socket, packet } => (socket, packet),
        other => panic!("expected a message, got {other:?}"),
    }
}

#[test]
fn timers_fire_in_their_order() {
    let mut timers: Timers<&str> = Timers::new();
    assert_eq!(timers.next(), None);
    assert!(timers.push(20, "b"));
    assert!(!timers.push(20, "c"));
    assert!(!timers.push(30, "d"));
    assert!(timers.push(10, "a"));
    assert_eq!(timers.next(), Some(10));
    assert!(timers.due(9).is_empty());
    assert_eq!(timers.due(20), ["a", "b", "c"]);
    assert_eq!(timers.next(), Some(30));
    assert_eq!(timers.due(30), ["d"]);
    assert_eq!(timers.next(), None);
}

#[test]
fn functions_are_listed_once_per_client_name() {
    let sets = [
        tools("wicket", &["zsh", "read"]),
        tools("wicket", &["zsh", "write"]),
        tools("shotgun", &["zsh"]),
    ];
    let list = collect_tools(&sets.iter().collect());
    let names: Vec<_> = list.iter().map(|t| (t.named("who"), t.named("f"))).collect();
    assert_eq!(
        names,
        [("wicket", "zsh"), ("wicket", "read"), ("wicket", "write"), ("shotgun", "zsh")]
    );
    assert_eq!(
        render(&list[0]).unwrap(),
        "{\"description\":\"does things\",\"f\":\"zsh\",\"who\":\"wicket\"}"
    );
    assert_eq!(describe_tools(&Vec::new()), "[]");
    let one = tools("a", &["b"]);
    assert_eq!(
        describe_tools(&vec![&one]),
        "[\n  {\n    \"description\": \"does things\",\n    \"f\": \"b\",\n    \"who\": \"a\"\n  }\n]"
    );
}

#[test]
fn a_question_starts_the_wicket_at_home_and_waits() {
    let mut pump = Pump::new();
    let actions = pump.tools_query(1);
    assert!(matches!(&actions[..], [Action::Spawn { host }] if host == "localhost"));
    assert!(matches!(&pump.spawned("localhost")[..],
        [Action::Delay { ms: SPAWN_TIMEOUT, timer: Timer::Spawn { host } }] if host == "localhost"));
    assert!(pump.tools_query(2).is_empty());
    let id = pump.accept();
    let actions = pump.connect(id, Some("localhost".to_owned()), tools("wicket", &["zsh"]));
    assert!(matches!(&actions[..], [
        Action::Enqueue(Queued::Check(Pending::Query { ticket: 1 })),
        Action::Enqueue(Queued::Check(Pending::Query { ticket: 2 })),
    ]));
    let actions = pump.tools_query(1);
    assert!(matches!(&actions[..], [Action::Tools { ticket: 1, text }] if text.contains("zsh")));
    assert!(pump.spawn_timeout("localhost").is_empty());
    assert!(pump.disconnected(id).is_empty());
    assert!(matches!(&pump.tools_query(3)[..], [Action::Tools { ticket: 3, text }] if text == "[]"));
}

#[test]
fn a_wicket_that_cannot_be_started_fails_what_waits() {
    let mut pump = Pump::new();
    pump.tools_query(1);
    let actions = pump.spawn_failed("localhost", "no such file");
    assert!(matches!(&actions[..], [Action::Tools { ticket: 1, text }] if text == "[]"));
    let wicket = "{\"who\":\"wicket\",\"f\":\"zsh\",\"args\":{\"where\":\"box\"}}";
    let actions = pump.tool_call(call("c", wicket, 2));
    assert!(matches!(&actions[..], [Action::Spawn { host }] if host == "box"));
    let actions = pump.spawn_failed("box", "no such file");
    assert_eq!(
        failure(&actions, 0, 2),
        "failed to spawn wicket on box: failed to spawn wicket on box: no such file"
    );
    assert!(pump.spawn_failed("box", "no such file").is_empty());
}

#[test]
fn calls_wait_for_the_wicket_of_their_host() {
    let wicket = "{\"who\":\"wicket\",\"f\":\"zsh\",\"args\":{\"where\":\"box\"}}";
    let mut pump = Pump::new();
    assert!(matches!(&pump.tool_call(call("a", wicket, 1))[..], [Action::Spawn { .. }]));
    assert!(pump.tool_call(call("b", wicket, 2)).is_empty());
    let actions = pump.spawn_timeout("box");
    assert_eq!(actions.len(), 2);
    assert!(matches!(&actions[0], Action::Enqueue(Queued::Check(Pending::Ensured(c))) if c.call_id == "a"));
    assert_eq!(failure(&pump.tool_call(call("c", wicket, 3)), 0, 3), "wicket on box disconnected");
    assert!(pump.wicket_exited("box").is_empty());
    assert!(matches!(&pump.tool_call(call("d", wicket, 4))[..], [Action::Spawn { .. }]));
    let actions = pump.wicket_exited("box");
    assert!(matches!(&actions[..], [Action::Enqueue(Queued::Check(Pending::Ensured(c)))] if c.ticket == 4));
    let id = join(&mut pump, "wicket", "box");
    let actions = pump.tool_call(call("e", wicket, 5));
    assert!(matches!(&actions[..], [Action::Enqueue(Queued::Pending(Pending::Ensured(_)))]));
    let nowhere = "{\"who\":\"wicket\",\"f\":\"zsh\",\"args\":{}}";
    assert_eq!(
        failure(&pump.tool_call(call("f", nowhere, 6)), 0, 6),
        "wicket tool call missing required where argument"
    );
    let other = "{\"who\":\"shotgun\",\"f\":\"tabs\"}";
    let actions = pump.tool_call(call("g", other, 7));
    assert!(matches!(&actions[..], [Action::Enqueue(Queued::Pending(Pending::Ensured(_)))]));
    assert!(pump.knows(id) && !pump.knows(id + 1));
}

#[test]
fn calls_are_dispatched_by_name_and_place() {
    let mut pump = Pump::new();
    join(&mut pump, "wicket", "localhost");
    let there = join(&mut pump, "wicket", "box");
    let home = join(&mut pump, "shotgun", "localhost");
    let args = "{\"who\":\"wicket\",\"f\":\"zsh\",\"args\":{\"where\":\"box\",\"cmd\":\"ls\",\"f\":\"x\"}}";
    let (socket, packet) = dispatch(&mut pump, call("a", args, 1));
    assert_eq!(socket, there);
    assert_eq!(
        render(&packet).unwrap(),
        "{\"call_id\":\"a\",\"cmd\":\"ls\",\"f\":\"zsh\",\"slug\":\"test\",\"transcript\":\"\",\"what\":\"tool\",\"where\":\"box\",\"why\":\"run\"}"
    );
    let (socket, packet) = dispatch(&mut pump, call("b", "{\"who\":\"shotgun\",\"f\":\"tabs\",\"args\":3}", 2));
    assert_eq!(socket, home);
    assert_eq!(packet.text_at("f"), Some("tabs"));
    pump.tool_call_ensured(call("c", "{\"who\":\"puzzle\",\"f\":\"x\"}", 3));
    assert_eq!(
        failure(&pump.tool_steered("c", NOW), 0, 3),
        "no connected client for who=puzzle where=localhost"
    );
    assert!(pump.tool_steered("c", NOW).is_empty());
}

#[test]
fn only_the_called_socket_answers_and_only_once() {
    let mut pump = Pump::new();
    let shotgun = join(&mut pump, "shotgun", "localhost");
    let other = join(&mut pump, "wicket", "localhost");
    dispatch(&mut pump, call("a", "{\"who\":\"shotgun\",\"f\":\"noop\"}", 9));
    assert!(pump.response(other, "a", answer("forged")).is_empty());
    let result = ToolResult { changes: Some(Json::Unsigned(1)), exit_code: 5, ..answer("real") };
    let actions = pump.response(shotgun, "a", result);
    assert!(matches!(&actions[..], [Action::Reply { ticket: 9, result }]
        if result.output == "real" && result.exit_code == 5 && result.changes.is_some()));
    assert!(pump.response(shotgun, "a", answer("again")).is_empty());
    assert!(pump.call_timeout("a").is_empty());
}

#[test]
fn calls_time_out() {
    let mut pump = Pump::new();
    join(&mut pump, "shotgun", "localhost");
    dispatch(&mut pump, call("a", "{\"who\":\"shotgun\",\"f\":\"noop\"}", 9));
    assert_eq!(failure(&pump.call_timeout("a"), 0, 9), "tool call timed out");
}

#[test]
fn hung_up_calls_may_or_may_not_have_completed() {
    let mut pump = Pump::new();
    let wicket = join(&mut pump, "wicket", "box");
    let shotgun = join(&mut pump, "shotgun", "localhost");
    dispatch(&mut pump, call("a", "{\"who\":\"wicket\",\"f\":\"zsh\",\"args\":{\"where\":\"box\"}}", 1));
    dispatch(&mut pump, call("b", "{\"who\":\"shotgun\",\"f\":\"tabs\"}", 2));
    let actions = pump.disconnected(wicket);
    assert_eq!(actions.len(), 1);
    assert_eq!(
        failure(&actions, 0, 1),
        "wicket on box hung up while running tool call; command may or may not have completed"
    );
    assert_eq!(
        failure(&pump.disconnected(shotgun), 0, 2),
        "client who=shotgun where=localhost hung up while running tool call; operation may or may not have completed"
    );
    assert!(!pump.knows(wicket) && !pump.knows(shotgun));
}

// ---------------------------------------------------------------------------
// Screenshots
// ---------------------------------------------------------------------------

const SAVE: &str = "{\"who\":\"shotgun\",\"f\":\"screenshot_save\",\"args\":{\"operation_id\":\"op-1\",\"destination\":\"/safe/capture.png\"}}";

fn source(why: &str, fields: Json) -> Json {
    fields
        .with("what", Json::text("screenshot_save"))
        .with("why", Json::text(why))
        .with("call_id", Json::text("save"))
        .with("operation_id", Json::text("op-1"))
        .with("attempt_id", Json::text("attempt-1"))
}
fn begin() -> Json {
    let intent = Json::object()
        .with("destination", Json::text("/safe/capture.png"))
        .with("bytes", Json::Unsigned(6))
        .with("sha256", Json::text(&"0".repeat(64)))
        .with("mode", Json::text("viewport"))
        .with("source_url", Json::text("https://example.test/"))
        .with("captured_at", Json::text("now"));
    source("begin", Json::object().with("where", Json::text("localhost")).with("intent", intent))
}
fn chunk(offset: u64) -> Json {
    source(
        "chunk",
        Json::object().with("offset", Json::Unsigned(offset)).with("data", Json::text("YWJj")),
    )
}
fn reply(command: &Json, why: &str, fields: Json) -> Json {
    fields
        .with("what", Json::text("screenshot_save"))
        .with("why", Json::text(why))
        .with("binding", command.get("binding").unwrap().copy())
        .with("sequence", command.get("sequence").unwrap().copy())
}
fn only_send(mut actions: Vec<Action>, to: u64) -> Json {
    assert_eq!(actions.len(), 1, "{actions:?}");
    match actions.remove(0) {
        Action::Send { socket, packet } if socket == to => packet,
        other => panic!("expected a message, got {other:?}"),
    }
}
fn offset(n: u64) -> Json {
    Json::object().with("next_offset", Json::Unsigned(n))
}
fn receiving() -> (Pump, u64, u64) {
    let mut pump = Pump::new();
    let shotgun = join(&mut pump, "shotgun", "localhost");
    let writer = join(&mut pump, "wicket", "localhost");
    let (socket, packet) = dispatch(&mut pump, call("save", SAVE, 4));
    assert_eq!(socket, shotgun);
    assert_eq!(packet.text_at("operation_id"), Some("op-1"));
    let command = only_send(pump.screenshot(shotgun, &begin(), NOW), writer);
    only_send(pump.screenshot(writer, &reply(&command, "ready", offset(0)), NOW), shotgun);
    (pump, shotgun, writer)
}
fn finishing() -> (Pump, u64, u64, Json) {
    let (mut pump, shotgun, writer) = receiving();
    for n in [0, 3] {
        let command = only_send(pump.screenshot(shotgun, &chunk(n), NOW), writer);
        only_send(pump.screenshot(writer, &reply(&command, "ack", offset(n + 3)), NOW), shotgun);
    }
    let finish = only_send(pump.screenshot(shotgun, &source("finish", Json::object()), NOW), writer);
    (pump, shotgun, writer, finish)
}
fn stored(finish: &Json) -> Json {
    let receipt = Json::object()
        .with("operation", finish.get("binding").unwrap().get("operation").unwrap().copy())
        .with("attempt", Json::Null)
        .with("event_id", Json::text("fact"))
        .with("requested", begin().get("intent").unwrap().copy())
        .with("destination", Json::text("/safe/capture.png"))
        .with("verified", Json::Null)
        .with("accepted_at", Json::text("then"))
        .with("observed_at", Json::text("then"))
        .with("outcome", Json::text("stored"));
    reply(finish, "stored", Json::object().with("receipt", receipt))
}

#[test]
fn a_stored_screenshot_is_the_answer_of_its_call() {
    let (mut pump, shotgun, writer, finish) = finishing();
    let result = only_send(pump.screenshot(writer, &stored(&finish), NOW), shotgun);
    let text = render(&result).unwrap();
    assert!(pump.response(writer, "save", answer(&text)).is_empty());
    let actions = pump.response(shotgun, "save", answer(&text));
    assert!(matches!(&actions[..], [Action::Reply { ticket: 4, result }]
        if result.output == text && result.exit_code == 0));
    assert!(pump.tick(u64::MAX).is_empty());
}

#[test]
fn an_invalid_answer_is_replaced_by_the_known_outcome() {
    let (mut pump, shotgun, writer, finish) = finishing();
    let result = only_send(pump.screenshot(writer, &stored(&finish), NOW), shotgun);
    let actions = pump.response(shotgun, "save", answer("invented"));
    assert!(matches!(&actions[..], [Action::Observe(_), Action::Reply { ticket: 4, result: r }]
        if r.output == render(&result).unwrap() && r.exit_code == 0));
}

#[test]
fn a_lost_writer_leaves_a_finish_unresolved() {
    let (mut pump, _, writer, _) = finishing();
    let actions = pump.disconnected(writer);
    let answered = actions
        .iter()
        .find_map(|a| match a {
            Action::Reply { ticket: 4, result } => Some(result),
            _ => None,
        })
        .unwrap();
    assert!(answered.output.contains("\"why\":\"unresolved\""));
    assert!(answered.output.contains("\"operation_id\":\"op-1\""));
    assert_eq!(answered.exit_code, 1);
}

#[test]
fn a_credit_violation_quarantines_the_source() {
    let (mut pump, shotgun, writer) = receiving();
    only_send(pump.screenshot(shotgun, &chunk(0), NOW), writer);
    let actions = pump.screenshot(shotgun, &chunk(3), NOW);
    assert!(actions.iter().any(|a| matches!(a, Action::Close { socket } if *socket == shotgun)));
    assert!(actions.iter().any(|a| matches!(a, Action::Send { socket, packet }
        if *socket == writer && packet.says("why", "cancel"))));
    assert!(actions.iter().any(|a| matches!(a, Action::Reply { ticket: 4, result }
        if result.output.contains("rejected"))));
    assert!(!pump.knows(shotgun));
    assert!(pump.generation() < u64::MAX);
}

#[test]
fn routes_expire_and_full_routers_refuse() {
    let (mut pump, _, _) = receiving();
    assert!(pump.tick(NOW + 14_999_999_999).is_empty());
    let actions = pump.tick(NOW + 15_000_000_000);
    assert!(actions.iter().any(|a| matches!(a, Action::Reply { ticket: 4, .. })));
    let mut pump = Pump::new();
    join(&mut pump, "shotgun", "localhost");
    for n in 0..4 {
        dispatch(&mut pump, call(&format!("save-{n}"), SAVE, n));
    }
    pump.tool_call_ensured(call("one-more", SAVE, 9));
    assert_eq!(
        failure(&pump.tool_steered("one-more", NOW), 0, 9),
        "screenshot route capacity reached"
    );
    let actions = pump.call_timeout("save-0");
    assert!(actions.iter().any(|a| matches!(a, Action::Reply { ticket: 0, result }
        if result.output.contains("tool call timed out"))));
}

#[test]
fn what_a_response_holds_and_the_sizes_of_a_packet_decide() {
    let (mut pump, shotgun, writer, finish) = finishing();
    let result = only_send(pump.screenshot(writer, &stored(&finish), NOW), shotgun);
    let actions = pump.response_holding(shotgun, "save", answer("ignored"), Some(&result));
    assert!(matches!(&actions[..], [Action::Reply { ticket: 4, result: r }]
        if r.output == render(&result).unwrap()));
    let (mut pump, shotgun, _) = receiving();
    let sizes = Sizes { packet: false, intent: true, requested: true };
    let actions = pump.sized_screenshot(shotgun, &chunk(0), sizes, NOW);
    assert!(actions.iter().any(|a| matches!(a, Action::Close { socket } if *socket == shotgun)));
}

#[test]
fn the_arguments_of_a_call_override_what_names_it() {
    let mut pump = Pump::new();
    join(&mut pump, "shotgun", "localhost");
    let args = "{\"who\":\"shotgun\",\"f\":\"tabs\",\"args\":{\"f\":\"x\",\"slug\":\"y\",\"n\":1}}";
    let (_, packet) = dispatch(&mut pump, call("a", args, 1));
    assert_eq!(
        render(&packet).unwrap(),
        "{\"call_id\":\"a\",\"f\":\"tabs\",\"n\":1,\"slug\":\"y\",\"transcript\":\"\",\"what\":\"tool\",\"why\":\"run\"}"
    );
}
