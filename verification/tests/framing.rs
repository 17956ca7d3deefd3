use easement::framing::{
    framing, init_default, read_client_message, read_lpjson, set_framing, write_client, Framing,
    Incoming,
};

const LINES: Option<Framing> = Some(Framing::Ndjson);
const PREFIXED: Option<Framing> = Some(Framing::Lpjson);

fn message(incoming: Incoming) -> (String, usize) {
    match incoming {
        Incoming::Message { text, used } => (text, used),
        other => panic!("expected a message, got {other:?}"),
    }
}

#[test]
fn the_first_choice_stays() {
    let mut slot = None;
    assert_eq!(framing(&slot), Framing::Ndjson);
    set_framing(&mut slot, Framing::Lpjson);
    set_framing(&mut slot, Framing::Ndjson);
    init_default(&mut slot);
    assert_eq!(framing(&slot), Framing::Lpjson);
    let mut slot = None;
    init_default(&mut slot);
    set_framing(&mut slot, Framing::Lpjson);
    assert_eq!(framing(&slot), Framing::Ndjson);
}

#[test]
fn messages_are_framed() {
    let mut out = vec![b'x'];
    write_client(&LINES, &mut out, b"{}");
    assert_eq!(out, b"x{}\n");
    let mut out = Vec::new();
    write_client(&None, &mut out, b"{}");
    assert_eq!(out, b"{}\n");
    let mut out = Vec::new();
    write_client(&PREFIXED, &mut out, b"{}");
    assert_eq!(out, [2, 0, 0, 0, b'{', b'}']);
    let mut out = Vec::new();
    write_client(&PREFIXED, &mut out, &[b' '; 66051]);
    assert_eq!(out[..4], [3, 2, 1, 0]);
}

#[test]
fn a_prefix_can_look_like_json() {
    let mut out = Vec::new();
    write_client(&PREFIXED, &mut out, &[b' '; 123]);
    assert_eq!(out[0], b'{');
}

#[test]
fn prefixed_messages_come_back() {
    let mut out = Vec::new();
    let text = "{\"name\": \"Grüße\"}\n";
    write_client(&PREFIXED, &mut out, text.as_bytes());
    out.extend_from_slice(b"more");
    let (read, used) = message(read_client_message(&PREFIXED, &out, false));
    assert_eq!(read, text);
    assert_eq!(used, 4 + text.len());
    assert!(matches!(read_lpjson(&out[..3], false), Incoming::More));
    assert!(matches!(read_lpjson(&out[..3], true), Incoming::End));
    assert!(matches!(read_lpjson(&out[..9], false), Incoming::More));
    assert!(matches!(read_lpjson(&out[..9], true), Incoming::End));
    assert!(matches!(read_lpjson(&[1, 0, 0, 0, 0xff], false), Incoming::End));
    assert_eq!(message(read_lpjson(&[0, 0, 0, 0], false)), (String::new(), 4));
}

#[test]
fn lines_come_back() {
    let mut out = Vec::new();
    write_client(&LINES, &mut out, "{\"a\":1}".as_bytes());
    out.extend_from_slice(b"{\"b\":2}\n");
    let (read, used) = message(read_client_message(&LINES, &out, false));
    assert_eq!(read, "{\"a\":1}");
    assert_eq!(used, 8);
    let (read, used) = message(read_client_message(&LINES, &out[used..], false));
    assert_eq!((read.as_str(), used), ("{\"b\":2}", 8));
}

#[test]
fn blank_lines_are_skipped_and_lines_are_trimmed() {
    let bytes = " \r\n\n\u{a0}\t{} \u{2003}\r\n".as_bytes();
    let (read, used) = message(read_client_message(&LINES, bytes, false));
    assert_eq!(read, "{}");
    assert_eq!(used, bytes.len());
    assert!(matches!(read_client_message(&LINES, b" \n\n", false), Incoming::More));
    assert!(matches!(read_client_message(&LINES, b" \n\n", true), Incoming::End));
    assert!(matches!(read_client_message(&LINES, b"", false), Incoming::More));
    assert!(matches!(read_client_message(&LINES, b"", true), Incoming::End));
}

#[test]
fn the_last_line_may_lack_its_newline() {
    assert!(matches!(read_client_message(&LINES, b"{}", false), Incoming::More));
    assert_eq!(message(read_client_message(&LINES, b"{}", true)), ("{}".to_owned(), 2));
    assert!(matches!(read_client_message(&LINES, b"\xff\n{}\n", false), Incoming::End));
}
