use easement::json::Json;
use easement::screenshot::base64::decoded_chunk_len;
use easement::screenshot::ingress::ingress;
use easement::screenshot::manifest::{
    judge_intent, judge_receipt, valid_id, valid_receipt, validate_intent, MAX_PNG_BYTES,
};
use easement::screenshot::model::{
    Sizes, ADMISSION_TIMEOUT, FINISH_TIMEOUT, MAX_CALLS, MAX_PACKET_BYTES,
};
use easement::screenshot::router::{measure, Effect, Router};
use easement::serial::{read, render};

const NOW: u64 = 1_000_000_000_000;

fn obj(members: Vec<(&str, Json)>) -> Json {
    members
        .into_iter()
        .fold(Json::object(), |value, (key, member)| value.with(key, member))
}
fn text(s: &str) -> Json {
    Json::text(s)
}
fn num(n: u64) -> Json {
    Json::Unsigned(n)
}
fn written(value: &Json) -> String {
    render(value).unwrap()
}
fn header(message: &str) -> Option<String> {
    serde_json::from_str::<serde_json::Value>(message)
        .ok()?
        .get("what")?
        .as_str()
        .map(str::to_owned)
}
fn assert_same(a: &Json, b: &Json) {
    assert!(a.same(b), "{a:?} is not {b:?}");
}

fn args(op: &str) -> Json {
    obj(vec![
        ("who", text("shotgun")),
        ("f", text("screenshot_save")),
        (
            "args",
            obj(vec![
                ("operation_id", text(op)),
                ("destination", text("/safe/capture.png")),
            ]),
        ),
    ])
}
fn intent(bytes: u64) -> Json {
    obj(vec![
        ("destination", text("/safe/capture.png")),
        ("bytes", num(bytes)),
        ("sha256", text(&"0".repeat(64))),
        ("mode", text("viewport")),
        ("source_url", text("https://example.test/")),
        ("captured_at", text("now")),
    ])
}
fn source(why: &str, fields: Json) -> Json {
    fields
        .with("what", text("screenshot_save"))
        .with("why", text(why))
        .with("call_id", text("call-1"))
        .with("operation_id", text("op-1"))
        .with("attempt_id", text("attempt-1"))
}
fn writer(command: &Json, why: &str, fields: Json) -> Json {
    fields
        .with("what", text("screenshot_save"))
        .with("why", text(why))
        .with("binding", command.get("binding").unwrap().copy())
        .with("sequence", command.get("sequence").unwrap().copy())
}
fn sent(effects: Vec<Effect>, socket: u64) -> Json {
    effects
        .into_iter()
        .find_map(|e| match e {
            Effect::Send { socket: s, packet } if s == socket => Some(packet),
            _ => None,
        })
        .expect("expected routed packet")
}
fn registered(now: u64) -> Router {
    let mut router = Router::default();
    router
        .register("call-1", 1, "test", &args("op-1"), now)
        .unwrap();
    router
}
fn begin(router: &mut Router, now: u64, count: u64) -> Json {
    sent(
        router.packet(
            1,
            &source(
                "begin",
                obj(vec![("where", text("localhost")), ("intent", intent(count))]),
            ),
            &[2],
            now,
        ),
        2,
    )
}
fn ready(router: &mut Router, now: u64, count: u64) -> Json {
    let command = begin(router, now, count);
    sent(
        router.packet(
            2,
            &writer(&command, "ready", obj(vec![("next_offset", num(0))])),
            &[2],
            now,
        ),
        1,
    )
}
fn assert_closed(effects: &[Effect], socket: u64) {
    assert!(
        effects
            .iter()
            .any(|e| matches!(e, Effect::Close { socket: s } if *s == socket))
    );
}
fn completed(effects: &[Effect]) -> &Json {
    effects
        .iter()
        .find_map(|e| match e {
            Effect::Complete { packet, .. } => Some(packet),
            _ => None,
        })
        .unwrap()
}

#[test]
fn only_the_dispatched_shotgun_call_can_begin_and_binding_is_router_owned() {
    let now = NOW;
    let mut router = registered(now);
    let packet = source(
        "begin",
        obj(vec![("where", text("localhost")), ("intent", intent(3))]),
    );
    assert_closed(&router.packet(9, &packet, &[2], now), 9);
    let mut forged = packet.copy();
    forged = forged.with("slug", text("other"));
    assert_closed(&router.packet(1, &forged, &[2], now), 1);
    let command = sent(router.packet(1, &packet, &[2], now), 2);
    assert_same(
        command.get("binding").unwrap().get("operation").unwrap(),
        &        obj(vec![("slug", text("test")), ("caller", text("shotgun")), ("operation_id", text("op-1"))])
    );
    assert_eq!(command.get("binding").unwrap().uint_at("source_socket"), Some(1));
    assert_eq!(command.get("binding").unwrap().uint_at("writer_socket"), Some(2));
    let mut other = args("op-2");
    other = other.with("who", text("wicket"));
    assert!(router.register("call-2", 3, "test", &other, now).is_err());
    other = other.with("who", text("shotgun"));
    other = other.with("f", text("screenshot"));
    assert!(router.register("call-2", 3, "test", &other, now).is_err());
}

#[test]
fn absent_ambiguous_and_remote_writers_are_not_admitted() {
    let now = NOW;
    for writers in [vec![], vec![2, 3]] {
        let mut router = registered(now);
        let effects = router.packet(
            1,
            &source(
                "begin",
                obj(vec![("where", text("localhost")), ("intent", intent(3))]),
            ),
            &writers,
            now,
        );
        assert_eq!(completed(&effects).text_at("why"), Some("rejected"));
        assert!(
            !effects
                .iter()
                .any(|e| matches!(e, Effect::Send { socket: 2 | 3, .. }))
        );
    }
    let mut router = registered(now);
    assert_closed(
        &router.packet(
            1,
            &source("begin", obj(vec![("where", text("remote")), ("intent", intent(3))])),
            &[2],
            now,
        ),
        1,
    );
}

#[test]
fn only_selected_writer_can_acknowledge_and_offsets_must_match() {
    let now = NOW;
    let mut router = registered(now);
    let command = begin(&mut router, now, 3);
    let reply = writer(&command, "ready", obj(vec![("next_offset", num(0))]));
    assert_closed(&router.packet(3, &reply, &[2, 3], now), 3);
    sent(router.packet(2, &reply, &[2], now), 1);
    let command = sent(
        router.packet(
            1,
            &source("chunk", obj(vec![("offset", num(0)), ("data", text("YWJj"))])),
            &[2],
            now,
        ),
        2,
    );
    assert_closed(
        &router.packet(
            2,
            &writer(&command, "ack", obj(vec![("next_offset", num(2))])),
            &[2],
            now,
        ),
        2,
    );
    assert_eq!(
        sent(
            router.packet(
                2,
                &writer(&command, "ack", obj(vec![("next_offset", num(3))])),
                &[2],
                now
            ),
            1
        ).uint_at("next_offset"),
        Some(3)
    );
}

#[test]
fn one_unacknowledged_chunk_and_exact_finish_count_are_enforced() {
    let now = NOW;
    let mut router = registered(now);
    ready(&mut router, now, 6);
    assert_closed(&router.packet(1, &source("finish", obj(vec![])), &[2], now), 1);
    let chunk = source("chunk", obj(vec![("offset", num(0)), ("data", text("YWJj"))]));
    sent(router.packet(1, &chunk, &[2], now), 2);
    assert_closed(&router.packet(1, &chunk, &[2], now), 1);
    assert_closed(&router.packet(1, &source("finish", obj(vec![])), &[2], now), 1);
}

#[test]
fn base64_limits_are_canonical_and_do_not_allocate_decoded_artifacts() {
    for data in [
        "", "a", "a===", "ab==", "abc=\n", "a=b=", "____", "abc", "AAB=", "YWJj=",
    ] {
        assert!(decoded_chunk_len(data).is_err(), "{data:?}");
    }
    for (count, data) in [
        (1, "Kg==".to_owned()),
        (2, "Kio=".to_owned()),
        (3, "Kioq".to_owned()),
        (65535, "Kioq".repeat(21845)),
        (65536, "Kioq".repeat(21845) + "Kg=="),
    ] {
        assert_eq!(decoded_chunk_len(&data), Ok(count));
    }
    assert!(decoded_chunk_len(&("Kioq".repeat(21845) + "Kio=")).is_err());
}

#[test]
fn concurrency_aggregate_and_manifest_limits_hold_before_forwarding() {
    let now = NOW;
    let mut router = Router::default();
    for index in 0..MAX_CALLS {
        router
            .register(
                &format!("call-{index}"),
                1,
                "test",
                &args(&format!("op-{index}")),
                now,
            )
            .unwrap();
    }
    assert!(
        router
            .register("extra", 1, "test", &args("extra"), now)
            .is_err()
    );
    for index in 0..2 {
        let mut packet = source(
            "begin",
            obj(vec![("where", text("localhost")), ("intent", intent(MAX_PNG_BYTES))]),
        );
        packet = packet.with("call_id", text(&format!("call-{index}")));
        packet = packet.with("operation_id", text(&format!("op-{index}")));
        sent(router.packet(1, &packet, &[2], now), 2);
    }
    let mut packet = source(
        "begin",
        obj(vec![("where", text("localhost")), ("intent", intent(1))]),
    );
    packet = packet.with("call_id", text("call-2"));
    packet = packet.with("operation_id", text("op-2"));
    assert_eq!(
        completed(&router.packet(1, &packet, &[2], now)).text_at("why"),
        Some("rejected")
    );
    for n in [0, MAX_PNG_BYTES + 1] {
        assert!(validate_intent(&intent(n)).is_err());
    }
    let mut wrong = intent(3);
    wrong = wrong.with("source_url", text(&"\0".repeat(8192)));
    assert!(validate_intent(&wrong).is_err());
}

#[test]
fn stale_attempt_packets_and_late_reply_cannot_mutate_replacement() {
    let now = NOW;
    let mut router = registered(now);
    let old = begin(&mut router, now, 3);
    sent(
        router.packet(
            2,
            &writer(&old, "ready", obj(vec![("next_offset", num(0))])),
            &[2],
            now,
        ),
        1,
    );
    let mut replacement = source(
        "begin",
        obj(vec![("where", text("localhost")), ("intent", intent(3))]),
    );
    replacement = replacement.with("attempt_id", text("attempt-2"));
    let current = sent(router.packet(1, &replacement, &[2], now), 2);
    assert!(
        router
            .packet(
                2,
                &writer(&old, "ready", obj(vec![("next_offset", num(0))])),
                &[2],
                now
            )
            .is_empty()
    );
    assert!(
        router
            .packet(1, &source("cancel", obj(vec![])), &[2], now)
            .is_empty()
    );
    assert_eq!(
        sent(
            router.packet(
                2,
                &writer(&current, "ready", obj(vec![("next_offset", num(0))])),
                &[2],
                now
            ),
            1
        ).text_at("attempt_id"),
        Some("attempt-2")
    );
}

#[test]
fn a_fresh_call_replaces_receiving_without_cancelling_or_reusing_its_attempt() {
    let now = NOW;
    let mut router = registered(now);
    ready(&mut router, now, 3);
    router
        .register("call-2", 1, "test", &args("op-1"), now)
        .unwrap();
    let mut query = source("status", obj(vec![("where", text("localhost"))]));
    query = query.with("call_id", text("call-2"));
    query = query.with("attempt_id", text("query-2"));
    let query = sent(router.packet(1, &query, &[2], now), 2);
    sent(
        router.packet(
            2,
            &writer(&query, "receiving", obj(vec![("next_offset", num(0))])),
            &[2],
            now,
        ),
        1,
    );
    let mut replacement = source(
        "begin",
        obj(vec![("where", text("localhost")), ("intent", intent(3))]),
    );
    replacement = replacement.with("call_id", text("call-2"));
    replacement = replacement.with("attempt_id", text("attempt-2"));
    let effects = router.packet(1, &replacement, &[2], now);
    assert_eq!(completed(&effects).text_at("call_id"), Some("call-1"));
    assert!(
        !effects
            .iter()
            .any(|e| matches!(e, Effect::Send { packet, .. } if packet.says("why", "cancel")))
    );
    let command = sent(effects, 2);
    assert!(
        router
            .packet(1, &source("cancel", obj(vec![])), &[2], now)
            .is_empty()
    );
    router.remove("call-1");
    assert!(
        router
            .packet(
                1,
                &source("chunk", obj(vec![("offset", num(0)), ("data", text("YWJj"))])),
                &[2],
                now
            )
            .is_empty()
    );
    sent(
        router.packet(
            2,
            &writer(&command, "ready", obj(vec![("next_offset", num(0))])),
            &[2],
            now,
        ),
        1,
    );
    let mut chunk = source("chunk", obj(vec![("offset", num(0)), ("data", text("YWJj"))]));
    chunk = chunk.with("call_id", text("call-2"));
    chunk = chunk.with("attempt_id", text("attempt-2"));
    assert_eq!(sent(router.packet(1, &chunk, &[2], now), 2).text_at("why"), Some("chunk"));
}

#[test]
fn disconnect_and_deadline_before_finish_are_rejections_after_finish_are_unknown() {
    for after_finish in [false, true] {
        for disconnected in [false, true] {
            let now = NOW;
            let mut router = registered(now);
            ready(&mut router, now, 3);
            if after_finish {
                let command = sent(
                    router.packet(
                        1,
                        &source("chunk", obj(vec![("offset", num(0)), ("data", text("YWJj"))])),
                        &[2],
                        now,
                    ),
                    2,
                );
                sent(
                    router.packet(
                        2,
                        &writer(&command, "ack", obj(vec![("next_offset", num(3))])),
                        &[2],
                        now,
                    ),
                    1,
                );
                sent(router.packet(1, &source("finish", obj(vec![])), &[2], now), 2);
            }
            let effects = if disconnected {
                router.disconnected(2)
            } else {
                router.expired(now + FINISH_TIMEOUT + ADMISSION_TIMEOUT)
            };
            assert_eq!(
                completed(&effects).text_at("why"),
                Some(if after_finish {
                    "unresolved"
                } else {
                    "rejected"
                })
            );
            assert_eq!(completed(&effects).text_at("operation_id"), Some("op-1"));
            assert!(!effects.iter().any(|e| matches!(e, Effect::Observe(v) if v.says("what", "store") || v.says("what", "fail_publish"))));
        }
    }
}

#[test]
fn stale_deadline_does_not_expire_a_new_phase() {
    let now = NOW;
    let mut router = registered(now);
    let opening = begin(&mut router, now, 3);
    let generation = router.sequence("call-1").unwrap();
    let later = now + ADMISSION_TIMEOUT - 1_000_000_000;
    sent(
        router.packet(
            2,
            &writer(&opening, "ready", obj(vec![("next_offset", num(0))])),
            &[2],
            later,
        ),
        1,
    );
    assert!(
        router
            .timeout("call-1", generation, now + ADMISSION_TIMEOUT)
            .is_empty()
    );
    assert!(router.contains("call-1"));
}

#[test]
fn screenshot_ingress_is_bounded_without_shrinking_ordinary_image_results() {
    let oversized = written(&source(
        "chunk",
        obj(vec![("offset", num(0)), ("data", text(&"A".repeat(MAX_PACKET_BYTES)))]),
    ));
    assert_eq!(
        ingress(&oversized, header(&oversized).as_deref()).unwrap_err(),
        "screenshot packet exceeds limit"
    );
    let ordinary = written(&obj(vec![
        ("what", text("tool")),
        ("why", text("response")),
        ("call_id", text("image")),
        ("output", text(&"A".repeat(2 * MAX_PACKET_BYTES))),
    ]));
    assert!(ingress(&ordinary, header(&ordinary).as_deref()).is_ok());
    let malformed = "{\"what\":\"screenshot_save\",\"data\": RAW_SCREENSHOT_SENTINEL}";
    assert!(
        !ingress(malformed, header(malformed).as_deref())
            .unwrap_err()
            .contains("RAW_SCREENSHOT_SENTINEL")
    );
}

#[test]
fn violations_never_echo_raw_data_into_observations_or_model_results() {
    let now = NOW;
    let mut router = registered(now);
    ready(&mut router, now, 3);
    let sentinel = "RAW_SCREENSHOT_SENTINEL";
    let effects = router.packet(
        1,
        &source("chunk", obj(vec![("offset", num(0)), ("data", text(sentinel))])),
        &[2],
        now,
    );
    assert!(!format!("{effects:?}").contains(sentinel));
    assert!(!format!("{:?}", router.disconnected(1)).contains(sentinel));
}

#[test]
fn a_status_retry_preserves_the_writer_receipt_and_checks_the_tool_wrapper() {
    let now = NOW;
    let mut router = registered(now);
    ready(&mut router, now, 3);
    let command = sent(
        router.packet(
            1,
            &source("chunk", obj(vec![("offset", num(0)), ("data", text("YWJj"))])),
            &[2],
            now,
        ),
        2,
    );
    sent(
        router.packet(
            2,
            &writer(&command, "ack", obj(vec![("next_offset", num(3))])),
            &[2],
            now,
        ),
        1,
    );
    sent(router.packet(1, &source("finish", obj(vec![])), &[2], now), 2);
    assert_eq!(completed(&router.disconnected(2)).text_at("why"), Some("unresolved"));
    router
        .register("call-2", 3, "test", &args("op-1"), now)
        .unwrap();
    let mut query = source("status", obj(vec![("where", text("localhost"))]));
    query = query.with("call_id", text("call-2"));
    query = query.with("attempt_id", text("retry-2"));
    let command = sent(router.packet(3, &query, &[4], now), 4);
    let receipt = obj(vec![("operation", obj(vec![("slug", text("test")), ("caller", text("shotgun")), ("operation_id", text("op-1"))])), ("attempt", obj(vec![("call_id", text("call-1")), ("attempt_id", text("attempt-1"))])), ("event_id", text("terminal-fact")), ("requested", intent(3)), ("destination", text("/safe/capture.png")), ("verified", obj(vec![("mime_type", text("image/png")), ("bytes", num(3)), ("sha256", text(&"0".repeat(64))), ("pixel_width", num(1)), ("pixel_height", num(1))])), ("accepted_at", text("accepted")), ("observed_at", text("observed")), ("outcome", text("stored"))]);
    let saved = sent(
        router.packet(
            4,
            &writer(&command, "stored", obj(vec![("receipt", receipt)])),
            &[4],
            now,
        ),
        3,
    );
    assert_eq!(
        saved.get("receipt").unwrap().get("attempt").unwrap().text_at("call_id"),
        Some("call-1")
    );
    assert_eq!(saved.text_at("call_id"), Some("call-2"));
    assert!(router.tool_result("call-2", "invented success").is_err());
    assert_same(&router.tool_result("call-2", &written(&saved)).unwrap(), &saved);
    let effects = router.disconnected(3);
    assert_same(completed(&effects).get("receipt").unwrap(), saved.get("receipt").unwrap());
}

#[test]
fn status_only_unknown_and_receiving_are_exact_tool_results_until_begin() {
    for why in ["unknown", "receiving"] {
        let now = NOW;
        let mut router = registered(now);
        let query = sent(
            router.packet(
                1,
                &source("status", obj(vec![("where", text("localhost"))])),
                &[2],
                now,
            ),
            2,
        );
        let fields = if why == "receiving" {
            obj(vec![("next_offset", num(2))])
        } else {
            obj(vec![])
        };
        let result = sent(router.packet(2, &writer(&query, why, fields), &[2], now), 1);
        assert_same(&router.tool_result("call-1", &written(&result)).unwrap(), &result);
        assert!(
            router
                .tool_result("call-1", &written(&obj(vec![("why", text(why))])))
                .is_err()
        );
        begin(&mut router, now, 3);
        assert!(router.tool_result("call-1", &written(&result)).is_err());
        let ended = router.end("call-1", "lost after begin", false);
        assert_eq!(completed(&ended).text_at("why"), Some("rejected"));
    }
}

#[test]
fn a_rejected_begin_cannot_fall_back_to_an_earlier_unknown_status() {
    let now = NOW;
    let mut router = registered(now);
    let query = sent(
        router.packet(
            1,
            &source("status", obj(vec![("where", text("localhost"))])),
            &[2],
            now,
        ),
        2,
    );
    sent(
        router.packet(2, &writer(&query, "unknown", obj(vec![])), &[2], now),
        1,
    );
    let mut wrong = intent(3);
    wrong = wrong.with("destination", text("/safe/other.png"));
    let effects = router.packet(
        1,
        &source("begin", obj(vec![("where", text("localhost")), ("intent", wrong)])),
        &[2],
        now,
    );
    assert_eq!(completed(&effects).text_at("why"), Some("rejected"));
}

// ---------------------------------------------------------------------------
// Reasons
// ---------------------------------------------------------------------------

fn reason(effects: &[Effect]) -> &str {
    effects
        .iter()
        .find_map(|e| match e {
            Effect::Observe(fact) => fact.text_at("why"),
            _ => None,
        })
        .expect("expected an observation")
}
fn chunk(offset: u64, data: &str) -> Json {
    source(
        "chunk",
        obj(vec![("offset", num(offset)), ("data", text(data))]),
    )
}
fn begin_packet(count: u64) -> Json {
    source(
        "begin",
        obj(vec![("where", text("localhost")), ("intent", intent(count))]),
    )
}
fn receipt() -> Json {
    obj(vec![
        (
            "operation",
            obj(vec![
                ("slug", text("test")),
                ("caller", text("shotgun")),
                ("operation_id", text("op-1")),
            ]),
        ),
        (
            "attempt",
            obj(vec![("call_id", text("call-1")), ("attempt_id", text("attempt-1"))]),
        ),
        ("event_id", text("fact")),
        ("requested", intent(3)),
        ("destination", text("/safe/capture.png")),
        ("verified", Json::Null),
        ("accepted_at", text("accepted")),
        ("observed_at", text("observed")),
        ("outcome", text("stored")),
    ])
}
/// A router whose call has sent its three bytes and a finish.
fn finished(now: u64) -> (Router, Json) {
    let mut router = registered(now);
    ready(&mut router, now, 3);
    let sending = sent(router.packet(1, &chunk(0, "YWJj"), &[2], now), 2);
    sent(
        router.packet(
            2,
            &writer(&sending, "ack", obj(vec![("next_offset", num(3))])),
            &[2],
            now,
        ),
        1,
    );
    let finish = sent(
        router.packet(1, &source("finish", Json::object()), &[2], now),
        2,
    );
    (router, finish)
}

#[test]
fn registration_names_what_is_wrong() {
    let mut router = Router::new();
    let bare = args("op-1").with("args", Json::object());
    assert_eq!(
        router.register("call-1", 1, "test", &Json::Null, NOW),
        Err("not a Shotgun screenshot_save call")
    );
    assert_eq!(
        router.register("call-1", 1, "test", &bare, NOW),
        Err("screenshot_save requires a caller-known operation_id")
    );
    for (call, slug, op) in [
        ("", "test", "op"),
        ("call", "te st", "op"),
        ("call", "test", "o/p"),
        ("call", "test", &"x".repeat(129)),
    ] {
        assert_eq!(
            router.register(call, 1, slug, &args(op), NOW),
            Err("invalid screenshot operation identity")
        );
    }
    for n in 0..MAX_CALLS {
        assert_eq!(
            router.register(&format!("call-{n}"), 1, "test", &args(&"x".repeat(128)), NOW),
            Ok(())
        );
    }
    assert_eq!(
        router.register("one-more", 1, "test", &args("op"), NOW),
        Err("screenshot route capacity reached")
    );
    router.remove("call-0");
    assert!(!router.contains("call-0"));
    assert_eq!(router.register("one-more", 1, "test", &args("op"), NOW), Ok(()));
}

#[test]
fn source_packets_name_what_is_wrong() {
    let now = NOW;
    let mut router = registered(now);
    let mut closed = |packet: Json| {
        let effects = router.packet(1, &packet, &[2], now);
        assert_closed(&effects, 1);
        reason(&effects).to_owned()
    };
    assert_eq!(
        closed(Json::text(&"x".repeat(MAX_PACKET_BYTES))),
        "screenshot packet exceeds limit"
    );
    assert_eq!(closed(Json::text("x")), "invalid screenshot source packet");
    assert_eq!(
        closed(begin_packet(3).with("extra", num(1))),
        "invalid screenshot source packet"
    );
    assert_eq!(
        closed(begin_packet(3).with("operation_id", text("op-2"))),
        "screenshot source/call/operation binding differs"
    );
    assert_eq!(
        closed(begin_packet(3).with("attempt_id", text("not ok"))),
        "screenshot source/call/operation binding differs"
    );
    assert_eq!(
        closed(source("begin", obj(vec![("where", text("localhost"))]))),
        "begin needs a PNG manifest"
    );
    assert_eq!(
        closed(begin_packet(3).with("offset", num(0))),
        "invalid screenshot begin fields or writer location"
    );
    assert_eq!(
        closed(source("status", Json::object())),
        "invalid status fields"
    );
}

#[test]
fn late_packets_have_no_effect() {
    let now = NOW;
    let mut router = registered(now);
    let opening = begin(&mut router, now, 3);
    assert!(router
        .packet(1, &begin_packet(3).with("call_id", text("gone")), &[2], now)
        .is_empty());
    let reply = writer(&opening, "ready", obj(vec![("next_offset", num(0))]));
    sent(router.packet(2, &reply, &[2], now), 1);
    assert!(router.packet(2, &reply, &[2], now).is_empty());
    assert!(router
        .packet(1, &chunk(0, "YWJj").with("attempt_id", text("old")), &[2], now)
        .is_empty());
    assert_eq!(router.sequence("call-1"), Some(2));
    assert_eq!(router.sequence("gone"), None);
    assert_eq!(router.generation(), 2);
}

#[test]
fn chunks_and_finishes_name_what_is_wrong() {
    let now = NOW;
    let mut router = registered(now);
    ready(&mut router, now, 3);
    let mut closed = |packet: Json| reason(&router.packet(1, &packet, &[2], now)).to_owned();
    assert_eq!(closed(chunk(0, "YWJj").with("where", text("localhost"))), "invalid chunk fields");
    assert_eq!(closed(source("chunk", obj(vec![("offset", num(0))]))), "missing chunk data");
    assert_eq!(closed(chunk(0, "YW")), "invalid or oversized base64 chunk");
    assert_eq!(closed(chunk(1, "YWJj")), "chunk offset or manifest byte count differs");
    assert_eq!(closed(chunk(0, "YWJjZA==")), "chunk offset or manifest byte count differs");
    assert_eq!(
        closed(source("finish", Json::object())),
        "finish requires exactly the admitted bytes and no extra fields"
    );
    assert_eq!(closed(begin_packet(3)), "replacement requires a new attempt ID");
    assert_eq!(closed(source("cancel", obj(vec![("offset", num(0))]))), "invalid cancel fields");
    assert_eq!(
        closed(source("status", obj(vec![("where", text("localhost"))]))),
        "screenshot command violates phase or one-chunk credit"
    );
}

#[test]
fn rejected_begins_say_why() {
    let other = intent(3).with("mode", text("full_page"));
    for (packet, first, why) in [
        (
            begin_packet(3).with("intent", Json::object()),
            false,
            "invalid screenshot manifest fields",
        ),
        (
            begin_packet(3).with("intent", intent(3).with("destination", text("/other.png"))),
            false,
            "destination differs from the dispatched save",
        ),
        (
            begin_packet(3)
                .with("intent", other)
                .with("attempt_id", text("attempt-2")),
            true,
            "operation already binds a different manifest",
        ),
    ] {
        let mut router = registered(NOW);
        if first {
            ready(&mut router, NOW, 3);
        }
        let effects = router.packet(1, &packet, &[2], NOW);
        assert_eq!(completed(&effects).text_at("why"), Some("rejected"));
        assert_eq!(completed(&effects).text_at("reason"), Some(why));
        assert!(!router.contains("call-1"));
    }
}

#[test]
fn an_outstanding_finish_cannot_be_replaced() {
    let now = NOW;
    let (mut router, _) = finished(now);
    router.register("call-2", 3, "test", &args("op-1"), now).unwrap();
    let packet = begin_packet(3)
        .with("call_id", text("call-2"))
        .with("attempt_id", text("attempt-2"));
    let effects = router.packet(3, &packet, &[2], now);
    assert_eq!(completed(&effects).text_at("call_id"), Some("call-2"));
    assert_eq!(
        completed(&effects).text_at("reason"),
        Some("operation has an outstanding finish/status/cancel; query status")
    );
    assert!(router.contains("call-1"));
}

#[test]
fn a_replacement_needs_the_same_intent_and_a_new_attempt() {
    let now = NOW;
    let mut router = registered(now);
    ready(&mut router, now, 3);
    for (call, packet) in [
        ("call-2", begin_packet(3)),
        ("call-3", begin_packet(4).with("attempt_id", text("attempt-2"))),
    ] {
        router.register(call, 3, "test", &args("op-1"), now).unwrap();
        let effects = router.packet(3, &packet.with("call_id", text(call)), &[2], now);
        assert_eq!(
            completed(&effects).text_at("reason"),
            Some("replacement conflicts with the live intent or needs a new attempt ID")
        );
    }
}

#[test]
fn replies_name_what_is_wrong() {
    let now = NOW;
    let mut router = registered(now);
    let opening = begin(&mut router, now, 3);
    let good = writer(&opening, "ready", obj(vec![("next_offset", num(0))]));
    let mut closed = |packet: Json| {
        let effects = router.packet(2, &packet, &[2], now);
        assert_closed(&effects, 2);
        reason(&effects).to_owned()
    };
    assert_eq!(closed(good.copy().with("binding", num(1))), "writer reply lacks call binding");
    assert_eq!(closed(good.copy().with("sequence", text("1"))), "writer reply lacks sequence");
    assert_eq!(closed(good.copy().with("what", text("tool"))), "reply attempt binding differs");
    assert_eq!(closed(good.copy().with("sequence", num(9))), "writer reply has no outstanding command");
    assert_eq!(closed(good.copy().with("extra", num(9))), "writer reply has unexpected fields");
    assert_eq!(closed(good.copy().with("why", num(9))), "writer reply lacks disposition");
    assert_eq!(closed(good.copy().with("why", text("ack"))), "ack has no outstanding chunk");
    assert_eq!(closed(good.copy().with("next_offset", num(1))), "writer reply violates screenshot phase");
    assert_eq!(
        closed(good.copy().with("why", text("stored"))),
        "writer terminal receipt does not match the operation"
    );
    let mut router = registered(now);
    let query = sent(
        router.packet(1, &source("status", obj(vec![("where", text("localhost"))])), &[2], now),
        2,
    );
    let effects = router.packet(2, &writer(&query, "receiving", Json::object()), &[2], now);
    assert_eq!(reason(&effects), "invalid receiving offset");
}

#[test]
fn an_outcome_needs_its_receipt() {
    let now = NOW;
    for (why, outcome) in [
        ("stored", text("stored")),
        (
            "published",
            obj(vec![("published_durability_unconfirmed", Json::object())]),
        ),
        ("failed", obj(vec![("failed", Json::object())])),
        ("aborted", text("aborted")),
    ] {
        let (mut router, finish) = finished(now);
        let wrong = receipt().with("outcome", text("other"));
        let effects = router.packet(2, &writer(&finish, why, obj(vec![("receipt", wrong)])), &[2], now);
        assert_closed(&effects, 2);
        let right = receipt().with("outcome", outcome);
        assert!(valid_receipt(&right, why, "test", "op-1", Some(&intent(3)), Some("/safe/capture.png")));
        assert!(!valid_receipt(&right, why, "test", "op-2", Some(&intent(3)), None));
        assert!(!valid_receipt(&right, why, "test", "op-1", Some(&intent(4)), None));
        assert!(!valid_receipt(&right, why, "test", "op-1", None, Some("/other.png")));
        let result = sent(
            router.packet(2, &writer(&finish, why, obj(vec![("receipt", right.copy())])), &[2], now),
            1,
        );
        assert_eq!(result.text_at("why"), Some(why));
        assert_same(result.get("receipt").unwrap(), &right);
        assert!(result.get("binding").is_none() && result.get("sequence").is_none());
        assert_same(completed(&router.disconnected(1)), &result);
    }
}

#[test]
fn a_refusal_after_a_finish_is_unresolved() {
    let (mut router, finish) = finished(NOW);
    let result = sent(router.packet(2, &writer(&finish, "rejected", Json::object()), &[2], NOW), 1);
    assert_eq!(result.text_at("why"), Some("unresolved"));
    assert_eq!(
        result.text_at("reason"),
        Some("Wicket refused the screenshot command")
    );
    let mut router = registered(NOW);
    let opening = begin(&mut router, NOW, 3);
    let result = sent(router.packet(2, &writer(&opening, "unresolved", Json::object()), &[2], NOW), 1);
    assert_eq!(result.text_at("why"), Some("unresolved"));
    assert_eq!(
        result.text_at("reason"),
        Some("Wicket could not establish a terminal outcome; reconcile by operation ID")
    );
}

#[test]
fn a_lost_receive_is_cancelled_in_the_next_generation() {
    let mut router = registered(NOW);
    ready(&mut router, NOW, 3);
    let effects = router.end("call-1", "lost", true);
    assert_eq!(effects.len(), 4);
    let Effect::Send { socket: 2, packet } = &effects[0] else {
        panic!("expected a cancel command")
    };
    assert_eq!(packet.text_at("why"), Some("cancel"));
    assert_eq!(packet.uint_at("sequence"), Some(3));
    assert_eq!(completed(&effects).text_at("why"), Some("rejected"));
    assert_eq!(completed(&effects).text_at("reason"), Some("lost"));
    assert!(router.end("call-1", "lost", true).is_empty());
}

#[test]
fn deadlines_follow_the_phase() {
    const SECOND: u64 = 1_000_000_000;
    let mut router = registered(NOW);
    assert!(router.expired(NOW + 30 * SECOND - 1).is_empty());
    ready(&mut router, NOW, 3);
    assert!(router.expired(NOW + 15 * SECOND - 1).is_empty());
    assert_eq!(
        completed(&router.expired(NOW + 15 * SECOND)).text_at("reason"),
        Some("screenshot route deadline elapsed")
    );
    let (mut router, _) = finished(NOW);
    let generation = router.sequence("call-1").unwrap();
    assert!(router.timeout("call-1", generation, NOW + 60 * SECOND - 1).is_empty());
    assert_eq!(
        completed(&router.timeout("call-1", generation, NOW + 60 * SECOND)).text_at("why"),
        Some("unresolved")
    );
}

#[test]
fn manifests_name_what_is_wrong() {
    let malformed = Err("screenshot manifest exceeds limits or is malformed");
    assert_eq!(validate_intent(&intent(1)), Ok(()));
    assert_eq!(validate_intent(&intent(MAX_PNG_BYTES)), Ok(()));
    assert_eq!(
        validate_intent(&intent(1).with("extra", num(1))),
        Err("invalid screenshot manifest fields")
    );
    assert_eq!(validate_intent(&intent(1).with("destination", num(1))), Err("missing destination"));
    assert_eq!(validate_intent(&intent(1).with("sha256", num(1))), Err("missing hash"));
    for (key, value) in [
        ("destination", text("relative.png")),
        ("destination", text(&("/".to_owned() + &"x".repeat(4096)))),
        ("bytes", Json::Negative(-1)),
        ("sha256", text(&"0".repeat(63))),
        ("sha256", text(&"G".repeat(64))),
        ("mode", text("window")),
        ("source_url", text(&"x".repeat(8193))),
        ("captured_at", text(&"x".repeat(129))),
    ] {
        assert_eq!(validate_intent(&intent(1).with(key, value)), malformed);
    }
}

#[test]
fn the_tool_response_is_the_relayed_packet() {
    let (mut router, finish) = finished(NOW);
    assert_eq!(
        router.tool_result("call-1", "{}").unwrap_err(),
        "no writer outcome has been received"
    );
    assert_eq!(
        router.tool_result("gone", "{}").unwrap_err(),
        "unknown screenshot call"
    );
    let result = sent(
        router.packet(2, &writer(&finish, "stored", obj(vec![("receipt", receipt())])), &[2], NOW),
        1,
    );
    assert_same(&router.tool_result("call-1", &written(&result)).unwrap(), &result);
    let padded = written(&result) + &" ".repeat(MAX_PACKET_BYTES);
    assert_eq!(
        router.tool_result("call-1", &padded).unwrap_err(),
        "tool response differs from the writer outcome"
    );
}

#[test]
fn ingress_names_what_is_wrong() {
    assert_eq!(ingress("{}", None).unwrap_err(), "invalid JSON envelope");
    assert_eq!(ingress("{", Some("tool")).unwrap_err(), "invalid JSON envelope");
    let value = ingress("{\"what\":\"tool\"}", Some("tool")).unwrap();
    assert_same(&value, &read("{ \"what\": \"tool\" }").unwrap());
    for other in ["{\"what\":\"tool\"}", "{\"what\":1}", "[]", "[\"tool\"]", "7"] {
        assert_eq!(ingress(other, Some("socket")).unwrap_err(), "invalid JSON envelope");
    }
    assert!(ingress("[\"tool\"]", Some("tool")).is_ok());
}

#[test]
fn sizes_decide_where_texts_are_too_long() {
    let fit = Sizes { packet: true, intent: true, requested: true };
    let mut router = registered(NOW);
    let effects = router.sized_packet(1, &begin_packet(3), Sizes { packet: false, ..fit }, &[2], NOW);
    assert_eq!(reason(&effects), "screenshot packet exceeds limit");
    let effects = router.sized_packet(1, &begin_packet(3), Sizes { intent: false, ..fit }, &[2], NOW);
    assert_eq!(
        completed(&effects).text_at("reason"),
        Some("screenshot manifest exceeds limits or is malformed")
    );
    assert!(judge_intent(&intent(3), true).is_ok());
    assert!(judge_intent(&intent(3), false).is_err());
    assert!(judge_receipt(&receipt(), "stored", "test", "op-1", None, None, true));
    assert!(!judge_receipt(&receipt(), "stored", "test", "op-1", None, None, false));
    assert!(!judge_receipt(&receipt(), "other", "test", "op-1", None, None, true));
    let sizes = measure(&begin_packet(3));
    assert!(sizes.packet && sizes.intent && sizes.requested);
    let long = begin_packet(3).with("intent", text(&"x".repeat(16 * 1024)));
    let sizes = measure(&long);
    assert!(sizes.packet && !sizes.intent && sizes.requested);
    assert!(!measure(&text(&"x".repeat(MAX_PACKET_BYTES))).packet);
}

#[test]
fn packets_may_be_lists_of_their_members() {
    let list = |items: Vec<Json>| Json::Array(items);
    let mut router = registered(NOW);
    let packet = list(vec![
        text("screenshot_save"),
        text("begin"),
        text("call-1"),
        text("op-1"),
        text("attempt-1"),
        text("localhost"),
        intent(3),
    ]);
    assert_eq!(sent(router.packet(1, &packet, &[2], NOW), 2).text_at("why"), Some("begin"));
    let effects = router.packet(1, &list(vec![text("screenshot_save")]), &[2], NOW);
    assert_eq!(reason(&effects), "invalid screenshot source packet");
}

#[test]
fn the_result_is_checked_against_what_the_response_holds() {
    let (mut router, finish) = finished(NOW);
    let result = sent(
        router.packet(2, &writer(&finish, "stored", obj(vec![("receipt", receipt())])), &[2], NOW),
        1,
    );
    assert_same(&router.checked_result("call-1", Some(&result)).unwrap(), &result);
    assert!(router.checked_result("call-1", Some(&Json::Null)).is_err());
    assert!(router.checked_result("call-1", None).is_err());
}

#[test]
fn identities_are_short_and_plain() {
    for id in ["a", "A-z_0", &"x".repeat(128)] {
        assert!(valid_id(id));
    }
    for id in ["", "a b", "ü", "a/b", &"x".repeat(129)] {
        assert!(!valid_id(id));
    }
}

#[test]
fn a_begin_that_a_rival_objects_to_does_not_show_an_earlier_status() {
    let now = NOW;
    let mut router = registered(now);
    ready(&mut router, now, 3);
    router
        .register("call-2", 1, "test", &args("op-1"), now)
        .unwrap();
    let query = source("status", obj(vec![("where", text("localhost"))]))
        .with("call_id", text("call-2"))
        .with("attempt_id", text("query-2"));
    let query = sent(router.packet(1, &query, &[2], now), 2);
    let status = writer(&query, "receiving", obj(vec![("next_offset", num(0))]));
    let status = sent(router.packet(2, &status, &[2], now), 1);
    assert_eq!(status.text_at("why"), Some("receiving"));
    let differing = source(
        "begin",
        obj(vec![("where", text("localhost")), ("intent", intent(4))]),
    )
    .with("call_id", text("call-2"))
    .with("attempt_id", text("attempt-2"));
    let effects = router.packet(1, &differing, &[2], now);
    let done = completed(&effects);
    assert_eq!(done.text_at("call_id"), Some("call-2"));
    assert_eq!(done.text_at("why"), Some("rejected"));
    assert_eq!(
        done.text_at("reason"),
        Some("replacement conflicts with the live intent or needs a new attempt ID")
    );
    assert!(!effects.iter().any(|e| matches!(e, Effect::Send { socket: 2, .. })));
    assert!(router.contains("call-1") && !router.contains("call-2"));
}

#[test]
fn a_stale_reply_has_no_authority_whatever_lies_between() {
    let now = NOW;
    let mut router = registered(now);
    let command = begin(&mut router, now, 3);
    let stale = writer(&command, "ready", obj(vec![("next_offset", num(0))]));
    sent(router.packet(2, &stale, &[2], now), 1);
    router
        .register("call-2", 1, "test", &args("op-2"), now)
        .unwrap();
    assert!(router.packet(2, &stale, &[2], now).is_empty());
    let sending = sent(router.packet(1, &chunk(0, "YWJj"), &[2], now), 2);
    assert!(router.packet(2, &stale, &[2], now).is_empty());
    let ack = writer(&sending, "ack", obj(vec![("next_offset", num(3))]));
    sent(router.packet(2, &ack, &[2], now), 1);
    router.end("call-2", "done", false);
    assert!(router.packet(2, &stale, &[2], now).is_empty());
    assert!(router.packet(2, &ack, &[2], now).is_empty());
    sent(router.packet(1, &source("finish", Json::object()), &[2], now), 2);
    assert!(router.packet(2, &ack, &[2], now).is_empty());
    router.end("call-1", "done", false);
    assert!(router.packet(2, &stale, &[2], now).is_empty());
}
