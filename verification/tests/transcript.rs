use easement::entry::{Entry, UserContent, UserEntry, UserMessage};
use easement::json::Json;
use easement::serial::{read, render};
use easement::transcript::{
    entry_line, file_name, read_lines, written_entries, Fault, Record, Transcript,
};

fn data(uuid: &str, parent: Option<&str>) -> Json {
    let entry = Json::object().with("uuid", Json::text(uuid));
    match parent {
        Some(p) => entry.with("parentUuid", Json::text(p)),
        None => entry,
    }
}
fn record(uuid: &str, parent: Option<&str>) -> Record {
    Record {
        data: data(uuid, parent),
        entry: Some(Entry::User(UserEntry {
            is_sidechain: false,
            uuid: Some(uuid.to_owned()),
            timestamp: None,
            message: UserMessage { content: UserContent::Text(uuid.to_owned()) },
        })),
    }
}
fn silent(uuid: &str, parent: Option<&str>) -> Record {
    Record { data: data(uuid, parent), entry: None }
}
fn chain() -> Transcript {
    let mut t = Transcript::new();
    let shown = t
        .load_history(vec![
            record("a", None),
            record("b", Some("a")),
            record("c", Some("b")),
        ])
        .unwrap();
    assert_eq!(shown.iter().map(|e| e.seq).collect::<Vec<_>>(), [1, 2, 3]);
    t
}
fn uuids(t: &Transcript) -> Vec<String> {
    t.entries()
        .iter()
        .map(|e| e.named("uuid").to_owned())
        .collect()
}

#[test]
fn lines_are_read_and_written() {
    let values = read_lines("{\"uuid\":\"a\"}\r\n\n not json \n {\"uuid\":\"b\"}");
    assert_eq!(values.len(), 2);
    assert_eq!(values[1].text_at("uuid"), Some("b"));
    assert_eq!(entry_line(&values[0]).unwrap(), "{\"uuid\":\"a\"}\n");
    assert!(read_lines(" \n").is_empty());
}

#[test]
fn files_are_named_by_their_time() {
    assert_eq!(file_name(Some("2026-01-02")), "2026-01-02.jsonl");
    assert_eq!(file_name(None), "transcript.jsonl");
}

#[test]
fn a_whole_chain_is_loaded() {
    let t = chain();
    assert_eq!(uuids(&t), ["a", "b", "c"]);
    let mut t = Transcript::new();
    let shown = t
        .load_history(vec![silent("a", Some("elsewhere")), record("b", Some("a"))])
        .unwrap();
    assert_eq!(shown.len(), 1);
    assert_eq!(shown[0].seq, 1);
}

#[test]
fn a_broken_chain_is_corrupt() {
    let mut t = Transcript::new();
    let fault = t
        .load_history(vec![
            record("a", None),
            record("b", Some("a")),
            record("c", Some("a")),
        ])
        .unwrap_err();
    assert!(matches!(fault, Fault::Corrupt { entry, parent, previous }
        if entry == "c" && parent == "a" && previous == "b"));
    assert!(t.entries().is_empty());
}

#[test]
fn a_chain_that_breaks_at_or_behind_the_command_line_is_corrupt() {
    let cli = |mut r: Record| {
        r.data = r.data.with("entrypoint", Json::text("cli"));
        r
    };
    let mut t = Transcript::new();
    let fault = t
        .load_history(vec![cli(record("a", None)), record("b", Some("x"))])
        .unwrap_err();
    assert!(matches!(fault, Fault::Corrupt { entry, parent, previous }
        if entry == "b" && parent == "x" && previous == "a"));
    let fault = t
        .load_history(vec![record("a", None), cli(record("c", Some("x"))), record("d", Some("y"))])
        .unwrap_err();
    assert!(matches!(fault, Fault::Corrupt { entry, .. } if entry == "c"));
    assert!(t.entries().is_empty());
    t.load_history(vec![record("a", None), cli(record("c", Some("a"))), record("d", Some("c"))])
        .unwrap();
    assert_eq!(uuids(&t), ["a", "c", "d"]);
}

#[test]
fn new_entries_of_the_command_line_are_appended_once() {
    let mut t = chain();
    let file = || {
        vec![
            record("b", Some("a")),
            silent("", None),
            record("d", Some("c")),
            Record { data: Json::object(), entry: None },
            record("e", Some("d")),
        ]
    };
    let mut with_empty = file();
    with_empty.remove(1);
    let done = t.reconcile_cli_file(with_empty).unwrap();
    assert_eq!(done.kept, 3);
    assert!(done.cut.is_empty());
    assert_eq!(done.entries.iter().map(|e| e.seq).collect::<Vec<_>>(), [4, 5]);
    assert_eq!(uuids(&t), ["a", "b", "c", "d", "e"]);
    let mut again = file();
    again.remove(1);
    let done = t.reconcile_cli_file(again).unwrap();
    assert_eq!((done.kept, done.entries.len()), (5, 0));
    assert_eq!(uuids(&t), ["a", "b", "c", "d", "e"]);
}

#[test]
fn a_pruned_chain_is_rewound() {
    let mut t = chain();
    let done = t
        .reconcile_cli_file(vec![record("a", None), record("d", Some("a"))])
        .unwrap();
    assert_eq!(done.kept, 1);
    assert_eq!(
        done.cut.iter().map(|e| e.named("uuid")).collect::<Vec<_>>(),
        ["b", "c"]
    );
    assert_eq!(uuids(&t), ["a", "d"]);
    assert_eq!(done.entries[0].seq, 4);
    let done = t.handle_entry(record("b", Some("d"))).unwrap();
    assert!(done.added);
}

#[test]
fn entries_from_nowhere_are_refused() {
    let mut t = chain();
    let fault = t
        .reconcile_cli_file(vec![record("x", Some("nowhere"))])
        .unwrap_err();
    assert!(matches!(fault, Fault::UnknownProvenance { parent } if parent == "nowhere"));
    assert_eq!(uuids(&t), ["a", "b", "c"]);
    let fault = t.reconcile_cli_file(vec![record("x", None)]).unwrap_err();
    assert!(matches!(fault, Fault::UnknownProvenance { parent } if parent.is_empty()));
}

#[test]
fn live_entries_follow_the_head() {
    let mut t = chain();
    let done = t.handle_entry(record("d", Some("c"))).unwrap();
    assert!(done.added && done.entries.len() == 1 && done.entries[0].seq == 4);
    let done = t.handle_entry(record("d", Some("c"))).unwrap();
    assert!(!done.added && done.entries.is_empty());
    let nameless = Record { data: Json::object(), entry: None };
    assert!(!t.handle_entry(nameless).unwrap().added);
    assert!(t.handle_entry(record("root", None)).unwrap().added);
    let fault = t.handle_entry(record("e", Some("d"))).unwrap_err();
    assert!(matches!(fault, Fault::ChainBreak { entry, parent, head }
        if entry == "e" && parent == "d" && head.as_deref() == Some("root")));
    assert_eq!(uuids(&t), ["a", "b", "c", "d", "root"]);
    let mut t = Transcript::new();
    let fault = t.handle_entry(record("e", Some("d"))).unwrap_err();
    assert!(matches!(fault, Fault::ChainBreak { head: None, .. }));
}

#[test]
fn the_lines_of_a_transcript_are_read_back() {
    let t = chain();
    let file = written_entries(t.entries());
    let lines: String = t.entries().iter().map(|e| entry_line(e).unwrap()).collect();
    assert_eq!(file, lines);
    let values = read_lines(&file);
    assert_eq!(values.len(), 3);
    for (value, entry) in values.iter().zip(t.entries()) {
        assert_eq!(render(value), render(entry));
        assert!(read(&render(value).unwrap()).unwrap().same(entry));
    }
}

#[test]
fn texts_with_newlines_stay_on_one_line() {
    let odd = Json::object().with("uuid", Json::text(" a\r\n\u{85}b\u{2028} "));
    let line = entry_line(&odd).unwrap();
    assert_eq!(line, "{\"uuid\":\" a\\r\\n\u{85}b\u{2028} \"}\n");
    let values = read_lines(&written_entries(&[odd.copy(), odd.copy()]));
    assert_eq!(values.len(), 2);
    assert!(values[1].same(&odd));
    assert_eq!(written_entries(&[]), "");
}

#[test]
fn a_live_transcript_is_loaded_again() {
    let mut live = Transcript::new();
    let mut seen = Vec::new();
    for r in [
        record("a", None),
        record("a", None),
        silent("b", Some("a")),
        Record { data: Json::object(), entry: None },
        record("c", Some("b")),
    ] {
        seen.extend(live.handle_entry(r).unwrap().entries);
    }
    let values = read_lines(&written_entries(live.entries()));
    let again = vec![record("a", None), silent("b", Some("a")), record("c", Some("b"))];
    for (value, r) in values.iter().zip(&again) {
        assert!(value.same(&r.data));
    }
    let mut loaded = Transcript::new();
    let shown = loaded.load_history(again).unwrap();
    assert_eq!(uuids(&loaded), uuids(&live));
    assert_eq!((loaded.seq(), live.seq()), (2, 2));
    assert_eq!(format!("{shown:?}"), format!("{seen:?}"));
    assert_eq!(shown.iter().map(|e| e.seq).collect::<Vec<_>>(), [1, 2]);
}

#[test]
fn every_entry_is_found_after_a_rewind() {
    let mut t = chain();
    let done = t.reconcile_cli_file(vec![record("x", Some("a"))]).unwrap();
    assert_eq!(done.cut.len(), 2);
    for known in ["a", "x"] {
        assert!(!t.handle_entry(record(known, Some("x"))).unwrap().added);
    }
    let done = t.reconcile_cli_file(vec![record("y", Some("a"))]).unwrap();
    assert_eq!((done.kept, done.cut.len()), (1, 1));
    assert_eq!(uuids(&t), ["a", "y"]);
}

#[test]
fn a_reconciled_transcript_is_loaded_again_where_its_entries_follow_one_another() {
    let file = |t: &Transcript| {
        read_lines(&written_entries(t.entries()))
            .into_iter()
            .map(|data| Record { data, entry: None })
            .collect::<Vec<_>>()
    };
    let mut t = chain();
    t.reconcile_cli_file(vec![record("x", Some("a")), record("y", Some("x"))]).unwrap();
    let mut again = Transcript::new();
    again.load_history(file(&t)).unwrap();
    assert_eq!(uuids(&again), ["a", "x", "y"]);
    t.reconcile_cli_file(vec![record("p", Some("y")), record("q", Some("a"))]).unwrap();
    assert!(matches!(Transcript::new().load_history(file(&t)).unwrap_err(),
        Fault::Corrupt { entry, .. } if entry == "q"));
}

#[test]
fn appended_entries_make_up_the_file() {
    let t = chain();
    let (front, back) = t.entries().split_at(1);
    let appended = written_entries(front) + &written_entries(back);
    assert_eq!(appended, written_entries(t.entries()));
}
