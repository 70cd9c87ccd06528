use fchat_log_merge::catalog::Catalog;
use fchat_log_merge::catalog::ScanEntry;
use fchat_log_merge::catalog::collect_logs;
use fchat_log_merge::codec::decode_stream;
use fchat_log_merge::codec::encode_tab;
use fchat_log_merge::codec::read_index_name;
use fchat_log_merge::message::Message;
use fchat_log_merge::message::MessageKind;
use fchat_log_merge::render::datetime_bytes;
use fchat_log_merge::render::format_message;
use fchat_log_merge::report::CharacterReport;
use fchat_log_merge::report::Error;
use fchat_log_merge::report::TabReport;
use fchat_log_merge::report::summarize;

fn msg(ts: u32, sender: &str, kind: MessageKind, body: &str) -> Message {
    Message { ts, sender: sender.as_bytes().to_vec(), kind, body: body.as_bytes().to_vec() }
}

#[test]
fn encode_then_decode_round_trips() {
    let msgs = vec![
        msg(0, "alice", MessageKind::Message, "hello"),
        msg(86400, "bob", MessageKind::Action, " waves"),
        msg(86401, "alice", MessageKind::Ad, "looking"),
        msg(90000, "carol", MessageKind::Roll, " rolls 7"),
        msg(90001, "mod", MessageKind::Warn, "stop"),
        msg(90002, "sys", MessageKind::Event, " joined"),
    ];
    let name = b"My Tab".to_vec();
    let (log, idx) = encode_tab(&name, &msgs).expect("all messages fit the wire format");
    let (decoded, failed) = decode_stream(&log);
    assert!(!failed);
    assert_eq!(decoded, msgs);
    assert_eq!(read_index_name(&idx), Some(name));
}

#[test]
fn index_layout_is_header_then_entries() {
    let msgs = vec![msg(86400, "a", MessageKind::Message, "x")];
    let name = b"T".to_vec();
    let (log, idx) = encode_tab(&name, &msgs).unwrap();
    // Header: length byte and name.
    assert_eq!(idx[0], 1);
    assert_eq!(idx[1], b'T');
    // One entry: day 1 as u16 little-endian, then offset 0 as u64.
    assert_eq!(&idx[2..4], &[1, 0]);
    assert_eq!(&idx[4..12], &[0u8; 8]);
    assert_eq!(idx.len(), 12);
    // The log record: ts, kind, sender length, sender, body length, body,
    // and the record length trailer (4 + 1 + 1 + 1 + 2 + 1 = 10).
    assert_eq!(log.len(), 12);
    assert_eq!(&log[0..4], &[0x80, 0x51, 0x01, 0x00]);
    assert_eq!(log[4], 0);
    assert_eq!(log[5], 1);
    assert_eq!(log[6], b'a');
    assert_eq!(&log[7..9], &[1, 0]);
    assert_eq!(log[9], b'x');
    assert_eq!(&log[10..12], &[10, 0]);
}

#[test]
fn decode_reports_truncated_record() {
    let msgs = vec![msg(5, "a", MessageKind::Message, "x"), msg(6, "a", MessageKind::Message, "y")];
    let (log, _) = encode_tab(&b"T".to_vec(), &msgs).unwrap();
    let cut = log[..log.len() - 3].to_vec();
    let (decoded, failed) = decode_stream(&cut);
    assert!(failed);
    assert_eq!(decoded.len(), 1);
    assert_eq!(decoded[0], msgs[0]);
}

#[test]
fn decode_rejects_unknown_kind() {
    let msgs = vec![msg(5, "a", MessageKind::Message, "x")];
    let (mut log, _) = encode_tab(&b"T".to_vec(), &msgs).unwrap();
    log[4] = 9;
    let (decoded, failed) = decode_stream(&log);
    assert!(failed);
    assert_eq!(decoded.len(), 0);
}

#[test]
fn decode_rejects_wrong_trailer() {
    let msgs = vec![msg(5, "a", MessageKind::Message, "x")];
    let (mut log, _) = encode_tab(&b"T".to_vec(), &msgs).unwrap();
    let last = log.len() - 2;
    log[last] = 99;
    let (_, failed) = decode_stream(&log);
    assert!(failed);
}

#[test]
fn decode_of_empty_stream_is_empty() {
    let (decoded, failed) = decode_stream(&Vec::new());
    assert!(!failed);
    assert_eq!(decoded.len(), 0);
}

#[test]
fn encode_refuses_oversized_sender() {
    let big = msg(0, core::str::from_utf8(&[b'a'; 300]).unwrap(), MessageKind::Message, "x");
    assert!(encode_tab(&b"T".to_vec(), &vec![big]).is_none());
}

#[test]
fn encode_refuses_oversized_name() {
    let name = vec![b'n'; 300];
    assert!(encode_tab(&name, &Vec::new()).is_none());
}

#[test]
fn read_index_name_rejects_short_file() {
    assert_eq!(read_index_name(&Vec::new()), None);
    assert_eq!(read_index_name(&vec![5, b'a']), None);
}

#[test]
fn datetime_renders_epoch() {
    assert_eq!(datetime_bytes(0), b"1970-01-01 00:00:00".to_vec());
    assert_eq!(datetime_bytes(86399), b"1970-01-01 23:59:59".to_vec());
    assert_eq!(datetime_bytes(86400), b"1970-01-02 00:00:00".to_vec());
    assert_eq!(datetime_bytes(1_000_000_000), b"2001-09-09 01:46:40".to_vec());
    // A leap day.
    assert_eq!(datetime_bytes(951_782_400), b"2000-02-29 00:00:00".to_vec());
}

#[test]
fn format_message_layouts() {
    let f = |m: &Message| String::from_utf8(format_message(m)).unwrap();
    assert_eq!(f(&msg(0, "alice", MessageKind::Message, "hi")),
        "[1970-01-01 00:00:00] alice: hi");
    assert_eq!(f(&msg(0, "alice", MessageKind::Action, " waves")),
        "[1970-01-01 00:00:00] alice waves");
    assert_eq!(f(&msg(0, "alice", MessageKind::Ad, "buy")),
        "[1970-01-01 00:00:00] alice^ buy");
    assert_eq!(f(&msg(0, "alice", MessageKind::Roll, " rolls 3")),
        "[1970-01-01 00:00:00] * alice rolls 3");
    assert_eq!(f(&msg(0, "alice", MessageKind::Warn, "stop")),
        "[1970-01-01 00:00:00] ! alice: stop");
    assert_eq!(f(&msg(0, "alice", MessageKind::Event, " joined")),
        "[1970-01-01 00:00:00] ? alice joined");
}

fn entry(character: &str, name: &str, has_extension: bool, has_idx: bool, size: u64) -> ScanEntry {
    ScanEntry {
        character: character.to_string(),
        name: name.to_string(),
        path: format!("/in/{}/logs/{}", character, name),
        has_extension,
        has_idx,
        size,
    }
}

#[test]
fn collect_groups_by_character_and_tab() {
    let entries = vec![
        entry("ann", "tab1", false, true, 10),
        entry("ann", "tab2", false, true, 20),
        entry("bob", "tab1", false, true, 5),
        // The same tab seen again under a later root.
        entry("ann", "tab1", false, true, 40),
    ];
    let cat: Catalog = collect_logs(&entries);
    assert_eq!(cat.file_total, 4);
    assert_eq!(cat.size_total, 75);
    assert_eq!(cat.skipped.len(), 0);
    assert_eq!(cat.characters.len(), 2);
    let ann = cat.characters.iter().find(|c| c.name == "ann").unwrap();
    let bob = cat.characters.iter().find(|c| c.name == "bob").unwrap();
    assert_eq!(ann.tabs.len(), 2);
    assert_eq!(bob.tabs.len(), 1);
    let tab1 = ann.tabs.iter().find(|t| t.key == "tab1").unwrap();
    assert_eq!(tab1.locations.len(), 2);
    assert_eq!(tab1.locations[0].size, 10);
    assert_eq!(tab1.locations[1].size, 40);
}

#[test]
fn collect_skips_and_filters() {
    let entries = vec![
        entry("ann", "tab1", false, true, 10),
        // Missing index: skipped with a warning.
        entry("ann", "tab2", false, false, 20),
        // Has an extension: silently ignored.
        entry("ann", "tab3.bak", true, true, 30),
    ];
    let cat = collect_logs(&entries);
    assert_eq!(cat.file_total, 1);
    assert_eq!(cat.size_total, 10);
    assert_eq!(cat.skipped, vec!["/in/ann/logs/tab2".to_string()]);
    assert_eq!(cat.characters.len(), 1);
    assert_eq!(cat.characters[0].tabs.len(), 1);
}

#[test]
fn collect_of_nothing_is_empty() {
    let cat = collect_logs(&Vec::new());
    assert_eq!(cat.characters.len(), 0);
    assert_eq!(cat.file_total, 0);
    assert_eq!(cat.size_total, 0);
}

#[test]
fn summarize_reports_each_failure_once() {
    let reports = vec![
        CharacterReport {
            character: "x".to_string(),
            error: None,
            tabs: vec![
                TabReport { tab: "a".to_string(), error: None },
                TabReport {
                    tab: "b".to_string(),
                    error: Some(Error::MessageParseError("bad record".to_string())),
                },
            ],
        },
        CharacterReport {
            character: "y".to_string(),
            error: None,
            tabs: vec![TabReport { tab: "a".to_string(), error: None }],
        },
    ];
    let s = summarize(&reports);
    assert!(!s.ok);
    assert_eq!(s.lines.len(), 1);
    assert_eq!(s.lines[0], "b for x had an error: Failed to parse a message due to: bad record");
}

#[test]
fn summarize_reports_character_failures() {
    let reports = vec![CharacterReport {
        character: "x".to_string(),
        error: Some(Error::UnableToCreateDirectory("/out/x".to_string(), "denied".to_string())),
        tabs: Vec::new(),
    }];
    let s = summarize(&reports);
    assert!(!s.ok);
    assert_eq!(s.lines.len(), 1);
    assert_eq!(s.lines[0],
        "x had an error: Unable to create directory `/out/x` due to: denied");
}

#[test]
fn summarize_of_clean_run_is_ok() {
    let reports = vec![CharacterReport {
        character: "x".to_string(),
        error: None,
        tabs: vec![TabReport { tab: "a".to_string(), error: None }],
    }];
    let s = summarize(&reports);
    assert!(s.ok);
    assert_eq!(s.lines.len(), 0);
}

#[test]
fn error_messages_name_their_subject() {
    assert_eq!(Error::OutputExists("/out".to_string()).message(),
        "Output folder `/out` already exists");
    assert_eq!(Error::NotEnoughInputs.message(), "Specify more than one input folder");
    assert_eq!(Error::InputDoesNotExist("/a".to_string()).message(),
        "Input folder `/a` does not exist");
    assert_eq!(Error::InputIsNotDirectory("/a".to_string()).message(),
        "Input folder `/a` is not a directory");
    assert_eq!(Error::UnableToOpenIndex("/a.idx".to_string(), "gone".to_string()).message(),
        "Unable to open index `/a.idx` due to: gone");
    assert_eq!(Error::UnableToOpenLog("/a".to_string(), "gone".to_string()).message(),
        "Unable to open log `/a` due to: gone");
    assert_eq!(Error::UnableToOpenDirectory("/d".to_string(), "gone".to_string()).message(),
        "Unable to open directory `/d` due to: gone");
    assert_eq!(Error::ExitingWithError.message(), "Exiting with error. Check output.");
}

#[test]
fn merged_tab_round_trips_through_files() {
    // Merge two overlapping encoded copies and write the result back out:
    // decoding the written log gives exactly the merged messages.
    let a = vec![msg(0, "alice", MessageKind::Message, "one"),
        msg(60, "bob", MessageKind::Message, "two")];
    let b = vec![msg(61, "bob", MessageKind::Message, "two"),
        msg(120, "alice", MessageKind::Message, "three")];
    let (log_a, _) = encode_tab(&b"T".to_vec(), &a).unwrap();
    let (log_b, _) = encode_tab(&b"T".to_vec(), &b).unwrap();
    let (sa, fa) = decode_stream(&log_a);
    let (sb, fb) = decode_stream(&log_b);
    assert!(!fa && !fb);
    let out = fchat_log_merge::tab::merge_tab(
        vec![
            fchat_log_merge::engine::DecodedStream { msgs: sa, failed: false },
            fchat_log_merge::engine::DecodedStream { msgs: sb, failed: false },
        ],
        300,
        false,
        None,
    );
    assert!(!out.failed);
    let (log_out, idx_out) = encode_tab(&b"T".to_vec(), &out.emitted).unwrap();
    let (again, failed) = decode_stream(&log_out);
    assert!(!failed);
    assert_eq!(again, out.emitted);
    assert_eq!(again.len(), 3);
    assert_eq!(read_index_name(&idx_out), Some(b"T".to_vec()));
}
