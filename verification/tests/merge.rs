use fchat_log_merge::engine::DecodedStream;
use fchat_log_merge::engine::merge_streams;
use fchat_log_merge::message::Message;
use fchat_log_merge::message::MessageKind;
use fchat_log_merge::tab::TabOutcome;
use fchat_log_merge::tab::merge_tab;

fn msg(ts: u32, sender: &str, kind: MessageKind, body: &str) -> Message {
    Message { ts, sender: sender.as_bytes().to_vec(), kind, body: body.as_bytes().to_vec() }
}

fn stream(msgs: Vec<Message>) -> DecodedStream {
    DecodedStream { msgs, failed: false }
}

fn chat(ts: u32, body: &str) -> Message {
    msg(ts, "alice", MessageKind::Message, body)
}

fn copy_of(v: &[Message]) -> Vec<Message> {
    v.iter()
        .map(|m| Message { ts: m.ts, sender: m.sender.clone(), kind: m.kind, body: m.body.clone() })
        .collect()
}

#[test]
fn single_stream_passthrough() {
    for window in [0u64, 1, 300, u64::MAX] {
        let msgs = vec![chat(10, "a"), chat(10, "a"), chat(11, "b"), chat(4000, "c")];
        let expect = vec![chat(10, "a"), chat(10, "a"), chat(11, "b"), chat(4000, "c")];
        let out: TabOutcome = merge_tab(vec![stream(msgs)], window, false, None);
        assert!(!out.failed);
        assert_eq!(out.emitted, expect);
        assert_eq!(out.warnings.len(), 0);
    }
}

#[test]
fn single_stream_passthrough_keeps_failure() {
    let out = merge_tab(
        vec![DecodedStream { msgs: vec![chat(1, "a")], failed: true }],
        300,
        false,
        None,
    );
    assert!(out.failed);
    assert_eq!(out.emitted, vec![chat(1, "a")]);
}

#[test]
fn window_collapses_pair_at_exact_distance() {
    let w = 5u64;
    let out = merge_streams(
        vec![stream(vec![chat(0, "hi")]), stream(vec![chat(5, "hi")])],
        w,
        false,
    );
    assert!(!out.failed);
    assert_eq!(out.emitted, vec![chat(0, "hi")]);
}

#[test]
fn narrower_window_keeps_both() {
    let out = merge_streams(
        vec![stream(vec![chat(0, "hi")]), stream(vec![chat(5, "hi")])],
        4,
        false,
    );
    assert!(!out.failed);
    assert_eq!(out.emitted, vec![chat(0, "hi"), chat(5, "hi")]);
}

#[test]
fn zero_window_still_collapses_same_second() {
    let out = merge_streams(
        vec![stream(vec![chat(7, "hi")]), stream(vec![chat(7, "hi")])],
        0,
        false,
    );
    assert_eq!(out.emitted, vec![chat(7, "hi")]);
}

#[test]
fn different_kind_is_no_duplicate() {
    let out = merge_streams(
        vec![
            stream(vec![msg(0, "alice", MessageKind::Message, "hi")]),
            stream(vec![msg(0, "alice", MessageKind::Action, "hi")]),
        ],
        60,
        false,
    );
    assert_eq!(out.emitted.len(), 2);
}

#[test]
fn different_sender_is_no_duplicate() {
    let out = merge_streams(
        vec![
            stream(vec![msg(0, "alice", MessageKind::Message, "hi")]),
            stream(vec![msg(0, "bob", MessageKind::Message, "hi")]),
        ],
        60,
        false,
    );
    assert_eq!(out.emitted.len(), 2);
}

#[test]
fn merge_interleaves_by_timestamp() {
    let a = vec![chat(0, "a"), chat(200, "c"), chat(400, "e")];
    let b = vec![chat(100, "b"), chat(300, "d"), chat(500, "f")];
    let out = merge_streams(vec![stream(a), stream(b)], 5, false);
    assert!(!out.failed);
    let bodies: Vec<&[u8]> = out.emitted.iter().map(|m| m.body.as_slice()).collect();
    assert_eq!(bodies, vec![&b"a"[..], b"b", b"c", b"d", b"e", b"f"]);
    let mut last = 0u32;
    for m in &out.emitted {
        assert!(m.ts >= last);
        last = m.ts;
    }
}

#[test]
fn self_merge_is_idempotent() {
    for window in [0u64, 1, 600] {
        let s = vec![chat(0, "a"), chat(30, "b"), chat(30, "c"), chat(1000, "d")];
        let out = merge_streams(vec![stream(copy_of(&s)), stream(copy_of(&s))], window, false);
        assert!(!out.failed);
        assert_eq!(out.emitted, s);
    }
}

#[test]
fn overlapping_copies_collapse() {
    // Two snapshots of one conversation: the second starts later and runs
    // longer; clocks agree within the window.
    let a = vec![chat(0, "one"), chat(60, "two"), chat(120, "three")];
    let b = vec![chat(62, "two"), chat(121, "three"), chat(180, "four")];
    let out = merge_streams(vec![stream(a), stream(b)], 300, false);
    assert!(!out.failed);
    let bodies: Vec<&[u8]> = out.emitted.iter().map(|m| m.body.as_slice()).collect();
    assert_eq!(bodies, vec![&b"one"[..], b"two", b"three", b"four"]);
}

#[test]
fn decode_failure_aborts_tab_but_keeps_prefix() {
    // The broken stream's bad record sits beyond the window at first, so
    // one message commits before the failure is reached.
    let good = stream(vec![chat(0, "a")]);
    let bad = DecodedStream { msgs: vec![chat(1000, "x")], failed: true };
    let out = merge_streams(vec![good, bad], 5, false);
    assert!(out.failed);
    let bodies: Vec<&[u8]> = out.emitted.iter().map(|m| m.body.as_slice()).collect();
    assert_eq!(bodies, vec![&b"a"[..]]);
}

#[test]
fn decode_failure_within_window_discards_pending() {
    // The failure is reached while the first window is still being filled:
    // nothing has been committed yet, and nothing is.
    let good = stream(vec![chat(0, "a"), chat(1000, "b")]);
    let bad = DecodedStream { msgs: vec![chat(1, "x")], failed: true };
    let out = merge_streams(vec![good, bad], 5, false);
    assert!(out.failed);
    assert_eq!(out.emitted.len(), 0);
}

#[test]
fn immediate_decode_failure_emits_nothing() {
    let bad = DecodedStream { msgs: vec![], failed: true };
    let good = stream(vec![chat(0, "a")]);
    let out = merge_streams(vec![bad, good], 5, false);
    assert!(out.failed);
    assert_eq!(out.emitted.len(), 0);
}

#[test]
fn dupe_warning_mode_changes_no_output() {
    let s0 = vec![chat(0, "x"), chat(2, "x")];
    let s1 = vec![chat(1, "x")];
    let quiet = merge_streams(vec![stream(copy_of(&s0)), stream(copy_of(&s1))], 60, false);
    let loud = merge_streams(vec![stream(s0), stream(s1)], 60, true);
    assert_eq!(quiet.emitted, loud.emitted);
    // The pending set never holds two matching messages, so no message can
    // match more than one and the warning list stays empty.
    assert_eq!(loud.warnings.len(), 0);
}

#[test]
fn fast_forward_prefix_equivalence() {
    // Checkpoint 100: the authoritative stream's prefix is emitted as is;
    // the other stream's earlier messages are dropped; the rest merges as
    // it would have if those messages had never existed.
    let s0 = vec![chat(0, "a"), chat(50, "b"), chat(150, "c")];
    let s1 = vec![chat(40, "b"), chat(151, "c"), chat(200, "d")];
    let ff = merge_tab(
        vec![stream(copy_of(&s0)), stream(copy_of(&s1))],
        5,
        false,
        Some(100),
    );
    let s1_trimmed: Vec<Message> = copy_of(&s1).into_iter().filter(|m| m.ts >= 100).collect();
    let plain = merge_tab(
        vec![
            stream(s0.into_iter().filter(|m| m.ts > 100).collect()),
            stream(s1_trimmed),
        ],
        5,
        false,
        None,
    );
    assert!(!ff.failed && !plain.failed);
    let mut expect = vec![chat(0, "a"), chat(50, "b")];
    expect.extend(plain.emitted);
    assert_eq!(ff.emitted, expect);
}

#[test]
fn fast_forward_checkpoint_bounds() {
    // The first stream drains messages at or before the checkpoint; the
    // others drop messages strictly before it.
    let s0 = vec![chat(100, "at"), chat(101, "after")];
    let s1 = vec![chat(99, "before"), chat(100, "at2")];
    let out = merge_tab(vec![stream(s0), stream(s1)], 0, false, Some(100));
    let bodies: Vec<&[u8]> = out.emitted.iter().map(|m| m.body.as_slice()).collect();
    assert_eq!(bodies, vec![&b"at"[..], b"at2", b"after"]);
}

#[test]
fn empty_streams_merge_to_nothing() {
    let out = merge_streams(vec![stream(vec![]), stream(vec![])], 5, false);
    assert!(!out.failed);
    assert_eq!(out.emitted.len(), 0);
}
