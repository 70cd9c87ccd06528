//! The on-disk codec for message logs and their index files.
//!
//! A log file is a sequence of records, each one message:
//!
//! * timestamp, 4 bytes little-endian (seconds since the epoch);
//! * kind, 1 byte;
//! * sender length, 1 byte, then the sender bytes;
//! * body length, 2 bytes little-endian, then the body bytes;
//! * record length, 2 bytes little-endian: the byte count of everything
//!   before this trailer, for reading the file backwards.
//!
//! An index file is a one-byte name length and the tab's display name,
//! followed by one entry per message: the day of its timestamp, 2 bytes
//! little-endian, and the offset of its record in the log file, 8 bytes
//! little-endian.

use vstd::prelude::*;
use vstd::bytes::*;
use vstd::slice::slice_subrange;
use vstd::slice::slice_to_vec;
use crate::message::Message;
use crate::message::MessageKind;
use crate::message::MessageView;

verus! {

pub const SECONDS_PER_DAY: u32 = 86400;

pub open spec fn kind_code(k: MessageKind) -> u8 {
    match k {
        MessageKind::Message => 0,
        MessageKind::Action => 1,
        MessageKind::Ad => 2,
        MessageKind::Roll => 3,
        MessageKind::Warn => 4,
        MessageKind::Event => 5,
    }
}

pub open spec fn kind_of_code(b: u8) -> Option<MessageKind> {
    if b == 0 {
        Option::Some(MessageKind::Message)
    } else if b == 1 {
        Option::Some(MessageKind::Action)
    } else if b == 2 {
        Option::Some(MessageKind::Ad)
    } else if b == 3 {
        Option::Some(MessageKind::Roll)
    } else if b == 4 {
        Option::Some(MessageKind::Warn)
    } else if b == 5 {
        Option::Some(MessageKind::Event)
    } else {
        Option::None
    }
}

fn kind_to_code(k: MessageKind) -> (r: u8)
    ensures
        r == kind_code(k),
{
    match k {
        MessageKind::Message => 0,
        MessageKind::Action => 1,
        MessageKind::Ad => 2,
        MessageKind::Roll => 3,
        MessageKind::Warn => 4,
        MessageKind::Event => 5,
    }
}

fn kind_from_code(b: u8) -> (r: Option<MessageKind>)
    ensures
        r == kind_of_code(b),
{
    if b == 0 {
        Option::Some(MessageKind::Message)
    } else if b == 1 {
        Option::Some(MessageKind::Action)
    } else if b == 2 {
        Option::Some(MessageKind::Ad)
    } else if b == 3 {
        Option::Some(MessageKind::Roll)
    } else if b == 4 {
        Option::Some(MessageKind::Warn)
    } else if b == 5 {
        Option::Some(MessageKind::Event)
    } else {
        Option::None
    }
}

/// A message the codec can write: the sender fits its one-byte length, and
/// the whole record length fits its two-byte trailer.
pub open spec fn wf_message(v: MessageView) -> bool {
    &&& v.sender.len() <= 255
    &&& 8 + v.sender.len() + v.body.len() <= 65535
}

/// The byte count of a message's record before the two-byte trailer.
pub open spec fn record_len(v: MessageView) -> int {
    8 + v.sender.len() as int + v.body.len() as int
}

/// One encoded log record.
pub open spec fn encode_msg(v: MessageView) -> Seq<u8> {
    spec_u32_to_le_bytes(v.ts) + seq![kind_code(v.kind)] + seq![v.sender.len() as u8] + v.sender
        + spec_u16_to_le_bytes(v.body.len() as u16) + v.body + spec_u16_to_le_bytes(
        record_len(v) as u16,
    )
}

/// What decoding finds at the front of a byte sequence: clean end of data,
/// a malformed record, or one message and the byte count it occupied.
pub enum DecodeStep {
    End,
    Bad,
    Next(MessageView, int),
}

/// Decode the record at the front of `d`.
pub open spec fn decode_step(d: Seq<u8>) -> DecodeStep {
    if d.len() == 0 {
        DecodeStep::End
    } else if d.len() < 8 {
        DecodeStep::Bad
    } else {
        let ts = spec_u32_from_le_bytes(d.subrange(0, 4));
        let sl = d[5] as int;
        match kind_of_code(d[4]) {
            Option::None => DecodeStep::Bad,
            Option::Some(kind) => if d.len() < 8 + sl {
                DecodeStep::Bad
            } else {
                let sender = d.subrange(6, 6 + sl);
                let bl = spec_u16_from_le_bytes(d.subrange(6 + sl, 8 + sl)) as int;
                if d.len() < 10 + sl + bl {
                    DecodeStep::Bad
                } else {
                    let body = d.subrange(8 + sl, 8 + sl + bl);
                    let trailer = spec_u16_from_le_bytes(
                        d.subrange(8 + sl + bl, 10 + sl + bl),
                    ) as int;
                    if trailer != 8 + sl + bl {
                        DecodeStep::Bad
                    } else {
                        DecodeStep::Next(
                            MessageView { ts, sender, kind, body },
                            10 + sl + bl,
                        )
                    }
                }
            },
        }
    }
}

/// Decode a whole stream: the messages up to the first malformed record or
/// the end of data, and whether a malformed record ended it.
pub open spec fn decode_model(d: Seq<u8>) -> (Seq<MessageView>, bool)
    decreases d.len(),
{
    match decode_step(d) {
        DecodeStep::End => (Seq::empty(), false),
        DecodeStep::Bad => (Seq::empty(), true),
        DecodeStep::Next(v, used) => if 0 < used <= d.len() {
            let rest = decode_model(d.skip(used));
            (seq![v] + rest.0, rest.1)
        } else {
            (seq![v], false)
        },
    }
}

/// What one exec decoding step found.
enum StepFound {
    End,
    Bad,
    Next(Message, usize),
}

spec fn step_found_matches(r: StepFound, s: DecodeStep) -> bool {
    match r {
        StepFound::End => s == DecodeStep::End,
        StepFound::Bad => s == DecodeStep::Bad,
        StepFound::Next(m, used) => s == DecodeStep::Next(m@, used as int),
    }
}

/// Decode the record at the front of `tail`.
fn decode_one(tail: &[u8]) -> (r: StepFound)
    ensures
        step_found_matches(r, decode_step(tail@)),
        r matches StepFound::Next(m, used) ==> 0 < used <= tail@.len(),
{
    let len = tail.len();
    if len == 0 {
        return StepFound::End;
    }
    if len < 8 {
        return StepFound::Bad;
    }
    let ts = u32_from_le_bytes(slice_subrange(tail, 0, 4));
    let kb = *vstd::slice::slice_index_get(tail, 4);
    let sl = *vstd::slice::slice_index_get(tail, 5) as usize;
    let kind = match kind_from_code(kb) {
        Option::None => {
            return StepFound::Bad;
        },
        Option::Some(k) => k,
    };
    if len < 8 + sl {
        return StepFound::Bad;
    }
    let sender = slice_to_vec(slice_subrange(tail, 6, 6 + sl));
    let bl = u16_from_le_bytes(slice_subrange(tail, 6 + sl, 8 + sl)) as usize;
    if len < 10 + sl + bl {
        return StepFound::Bad;
    }
    let body = slice_to_vec(slice_subrange(tail, 8 + sl, 8 + sl + bl));
    let trailer = u16_from_le_bytes(slice_subrange(tail, 8 + sl + bl, 10 + sl + bl)) as usize;
    if trailer != 8 + sl + bl {
        return StepFound::Bad;
    }
    let m = Message { ts, sender, kind, body };
    proof {
        assert(m@ == (match decode_step(tail@) {
            DecodeStep::Next(v, _) => v,
            _ => m@,
        }));
    }
    StepFound::Next(m, 10 + sl + bl)
}

proof fn lemma_skip_skip(d: Seq<u8>, a: int, b: int)
    requires
        0 <= a,
        0 <= b,
        a + b <= d.len(),
    ensures
        d.skip(a).skip(b) == d.skip(a + b),
{
    assert(d.skip(a).skip(b) =~= d.skip(a + b));
}

/// The sequence of messages decoded from `data`, and whether decoding
/// stopped at a malformed record.  The messages are exactly `decode_model`
/// of the bytes.
pub fn decode_stream(data: &Vec<u8>) -> (r: (Vec<Message>, bool))
    ensures
        r.0@.map_values(|m: Message| m@) == decode_model(data@).0,
        r.1 == decode_model(data@).1,
{
    let mut msgs: Vec<Message> = Vec::new();
    let mut pos: usize = 0;
    let mut failed = false;
    let mut done = false;
    proof {
        assert(data@.skip(0) =~= data@);
        assert(msgs@.map_values(|m: Message| m@) =~= Seq::<MessageView>::empty());
    }
    while !done
        invariant
            pos <= data@.len(),
            !done ==> !failed && decode_model(data@).0 == msgs@.map_values(|m: Message| m@)
                + decode_model(data@.skip(pos as int)).0 && decode_model(data@).1
                == decode_model(data@.skip(pos as int)).1,
            done ==> decode_model(data@).0 == msgs@.map_values(|m: Message| m@)
                && decode_model(data@).1 == failed,
        decreases data@.len() - pos, (if done { 0int } else { 1int }),
    {
        let tail = slice_subrange(data.as_slice(), pos, data.len());
        let step = decode_one(tail);
        match step {
            StepFound::End => {
                done = true;
            },
            StepFound::Bad => {
                failed = true;
                done = true;
            },
            StepFound::Next(m, used) => {
                let ghost suffix = data@.skip(pos as int);
                proof {
                    lemma_skip_skip(data@, pos as int, used as int);
                    assert(decode_model(suffix).0 == seq![m@] + decode_model(
                        suffix.skip(used as int),
                    ).0);
                }
                msgs.push(m);
                pos = pos + used;
                proof {
                    assert(msgs@.map_values(|mm: Message| mm@) =~= msgs@.drop_last().map_values(
                        |mm: Message| mm@,
                    ).push(m@));
                }
            },
        }
    }
    (msgs, failed)
}

/// The views of a message sequence.
pub open spec fn message_views(ms: Seq<Message>) -> Seq<MessageView> {
    ms.map_values(|m: Message| m@)
}

/// The index header: one length byte then the display name.
pub open spec fn idx_header(name: Seq<u8>) -> Seq<u8> {
    seq![name.len() as u8] + name
}

/// One index entry: the day of the message's timestamp and the offset of
/// its record in the log file.
pub open spec fn idx_entry(v: MessageView, offset: int) -> Seq<u8> {
    spec_u16_to_le_bytes((v.ts / SECONDS_PER_DAY) as u16) + spec_u64_to_le_bytes(offset as u64)
}

/// The log records of a message sequence, concatenated.
pub open spec fn log_bytes(ms: Seq<MessageView>) -> Seq<u8>
    decreases ms.len(),
{
    if ms.len() == 0 {
        Seq::empty()
    } else {
        log_bytes(ms.drop_last()) + encode_msg(ms.last())
    }
}

/// The index entries of a message sequence, each carrying the log offset
/// its record was written at.
pub open spec fn idx_entries(ms: Seq<MessageView>) -> Seq<u8>
    decreases ms.len(),
{
    if ms.len() == 0 {
        Seq::empty()
    } else {
        idx_entries(ms.drop_last()) + idx_entry(ms.last(), log_bytes(ms.drop_last()).len() as int)
    }
}

fn push_bytes(out: &mut Vec<u8>, b: &[u8])
    ensures
        final(out)@ == old(out)@ + b@,
{
    let mut i: usize = 0;
    while i < b.len()
        invariant
            i <= b@.len(),
            out@ == old(out)@ + b@.subrange(0, i as int),
        decreases b@.len() - i,
    {
        let x = *vstd::slice::slice_index_get(b, i);
        out.push(x);
        proof {
            assert(out@ =~= old(out)@ + b@.subrange(0, i + 1));
        }
        i += 1;
    }
    proof {
        assert(out@ =~= old(out)@ + b@);
    }
}

/// Append one message's record to a log buffer.
fn encode_message(m: &Message, out: &mut Vec<u8>)
    requires
        wf_message(m@),
    ensures
        final(out)@ == old(out)@ + encode_msg(m@),
{
    let ts_b = u32_to_le_bytes(m.ts);
    push_bytes(out, ts_b.as_slice());
    out.push(kind_to_code(m.kind));
    out.push(m.sender.len() as u8);
    push_bytes(out, m.sender.as_slice());
    let bl = u16_to_le_bytes(m.body.len() as u16);
    push_bytes(out, bl.as_slice());
    push_bytes(out, m.body.as_slice());
    let trailer = u16_to_le_bytes((8 + m.sender.len() + m.body.len()) as u16);
    push_bytes(out, trailer.as_slice());
    proof {
        assert(out@ =~= old(out)@ + encode_msg(m@));
    }
}

/// Whether a message fits the wire format.
pub fn message_fits(m: &Message) -> (r: bool)
    ensures
        r == wf_message(m@),
{
    m.sender.len() <= 255 && m.body.len() <= 65535 - 8 - m.sender.len()
}

/// Encode one output tab: the log file of all its messages and the index
/// file of the display name and one entry per message.  `None` exactly
/// when the name or some message does not fit the wire format.
pub fn encode_tab(name: &Vec<u8>, msgs: &Vec<Message>) -> (r: Option<(Vec<u8>, Vec<u8>)>)
    ensures
        r is Some <==> name@.len() <= 255 && (forall|j: int| 0 <= j < msgs@.len()
            ==> wf_message(#[trigger] msgs@[j]@)),
        r matches Option::Some(p) ==> p.0@ == log_bytes(message_views(msgs@)) && p.1@
            == idx_header(name@) + idx_entries(message_views(msgs@)),
{
    if name.len() > 255 {
        return Option::None;
    }
    let mut log: Vec<u8> = Vec::new();
    let mut idx: Vec<u8> = Vec::new();
    idx.push(name.len() as u8);
    push_bytes(&mut idx, name.as_slice());
    let mut j: usize = 0;
    proof {
        assert(idx@ =~= idx_header(name@));
        assert(message_views(msgs@.take(0)) =~= Seq::<MessageView>::empty());
    }
    while j < msgs.len()
        invariant
            j <= msgs@.len(),
            forall|k: int| 0 <= k < j ==> wf_message(#[trigger] msgs@[k]@),
            log@ == log_bytes(message_views(msgs@.take(j as int))),
            idx@ == idx_header(name@) + idx_entries(message_views(msgs@.take(j as int))),
        decreases msgs@.len() - j,
    {
        let m = &msgs[j];
        if !message_fits(m) {
            return Option::None;
        }
        let ghost pre = message_views(msgs@.take(j as int));
        let day = m.ts / SECONDS_PER_DAY;
        let day_b = u16_to_le_bytes(day as u16);
        push_bytes(&mut idx, day_b.as_slice());
        let off_b = u64_to_le_bytes(log.len() as u64);
        push_bytes(&mut idx, off_b.as_slice());
        encode_message(m, &mut log);
        proof {
            let cur = message_views(msgs@.take(j + 1));
            assert(cur.drop_last() =~= pre);
            assert(cur.last() == msgs@[j as int]@);
            assert(log@ =~= log_bytes(cur));
            assert(idx@ =~= idx_header(name@) + idx_entries(cur));
        }
        j += 1;
    }
    proof {
        assert(msgs@.take(msgs@.len() as int) =~= msgs@);
    }
    Option::Some((log, idx))
}

/// Decoding what was just encoded finds the same message and hands back
/// the rest of the bytes untouched.
pub proof fn lemma_decode_encode_step(v: MessageView, rest: Seq<u8>)
    requires
        wf_message(v),
    ensures
        decode_step(encode_msg(v) + rest) == DecodeStep::Next(
            v,
            10 + v.sender.len() as int + v.body.len() as int,
        ),
        (encode_msg(v) + rest).skip(10 + v.sender.len() as int + v.body.len() as int) == rest,
{
    lemma_auto_spec_u32_to_from_le_bytes();
    lemma_auto_spec_u16_to_from_le_bytes();
    let d = encode_msg(v) + rest;
    let sl = v.sender.len() as int;
    let bl = v.body.len() as int;
    assert(spec_u32_to_le_bytes(v.ts).len() == 4);
    assert(spec_u16_to_le_bytes(bl as u16).len() == 2);
    assert(spec_u16_to_le_bytes(record_len(v) as u16).len() == 2);
    assert(encode_msg(v).len() == 10 + sl + bl);
    assert(d.len() == 10 + sl + bl + rest.len());
    assert(d.subrange(0, 4) =~= spec_u32_to_le_bytes(v.ts));
    assert(d[4] == kind_code(v.kind));
    assert(d[5] == sl as u8);
    assert(d.subrange(6, 6 + sl) =~= v.sender);
    assert(d.subrange(6 + sl, 8 + sl) =~= spec_u16_to_le_bytes(bl as u16));
    assert(d.subrange(8 + sl, 8 + sl + bl) =~= v.body);
    assert(d.subrange(8 + sl + bl, 10 + sl + bl) =~= spec_u16_to_le_bytes(record_len(v) as u16));
    assert(kind_of_code(kind_code(v.kind)) == Option::Some(v.kind));
    assert(spec_u32_from_le_bytes(d.subrange(0, 4)) == v.ts);
    assert(spec_u16_from_le_bytes(d.subrange(6 + sl, 8 + sl)) as int == bl);
    assert(spec_u16_from_le_bytes(d.subrange(8 + sl + bl, 10 + sl + bl)) as int == 8 + sl + bl);
    assert(decode_step(d) == DecodeStep::Next(v, 10 + sl + bl)) by {
        let got = MessageView {
            ts: spec_u32_from_le_bytes(d.subrange(0, 4)),
            sender: d.subrange(6, 6 + sl),
            kind: v.kind,
            body: d.subrange(8 + sl, 8 + sl + bl),
        };
        assert(got == v);
    }
    assert(d.skip(10 + sl + bl) =~= rest);
}

proof fn lemma_log_bytes_front(ms: Seq<MessageView>)
    requires
        ms.len() > 0,
    ensures
        log_bytes(ms) == encode_msg(ms[0]) + log_bytes(ms.skip(1)),
    decreases ms.len(),
{
    if ms.len() == 1 {
        assert(ms.drop_last().len() == 0);
        assert(ms.skip(1).len() == 0);
        assert(log_bytes(ms) == log_bytes(ms.drop_last()) + encode_msg(ms.last()));
        assert(log_bytes(ms) =~= encode_msg(ms[0]) + log_bytes(ms.skip(1)));
    } else {
        lemma_log_bytes_front(ms.drop_last());
        assert(ms.drop_last()[0] == ms[0]);
        assert(ms.drop_last().skip(1) =~= ms.skip(1).drop_last());
        assert(ms.skip(1).last() == ms.last());
        assert(log_bytes(ms.skip(1)) == log_bytes(ms.skip(1).drop_last()) + encode_msg(
            ms.last()));
        assert(log_bytes(ms) =~= encode_msg(ms[0]) + log_bytes(ms.skip(1)));
    }
}

/// The codec round trip: decoding an encoded log recovers exactly the
/// messages that were written, with no failure.
pub proof fn lemma_codec_round_trip(ms: Seq<MessageView>)
    requires
        forall|j: int| 0 <= j < ms.len() ==> wf_message(#[trigger] ms[j]),
    ensures
        decode_model(log_bytes(ms)).0 == ms,
        !decode_model(log_bytes(ms)).1,
    decreases ms.len(),
{
    if ms.len() == 0 {
        assert(log_bytes(ms).len() == 0);
        assert(decode_step(log_bytes(ms)) == DecodeStep::End);
        assert(decode_model(log_bytes(ms)).0 =~= ms);
    } else {
        lemma_log_bytes_front(ms);
        let tail = log_bytes(ms.skip(1));
        lemma_decode_encode_step(ms[0], tail);
        let d = log_bytes(ms);
        let used: int = 10 + ms[0].sender.len() as int + ms[0].body.len() as int;
        assert(decode_step(d) == DecodeStep::Next(ms[0], used));
        assert(0 < used <= d.len());
        assert(d.skip(used) == tail);
        assert forall|j: int| 0 <= j < ms.skip(1).len() implies wf_message(
            #[trigger] ms.skip(1)[j]) by {
            assert(ms.skip(1)[j] == ms[j + 1]);
        }
        lemma_codec_round_trip(ms.skip(1));
        assert(decode_model(d).0 =~= ms);
    }
}

/// The display name stored in an index file's header; `None` exactly when
/// the file is too short to hold the header it promises.
pub fn read_index_name(idx: &Vec<u8>) -> (r: Option<Vec<u8>>)
    ensures
        r is Some <==> idx@.len() >= 1 && idx@.len() >= 1 + idx@[0] as int,
        r matches Option::Some(name) ==> name@ == idx@.subrange(1, 1 + idx@[0] as int),
{
    if idx.len() == 0 {
        return Option::None;
    }
    let n = idx[0] as usize;
    if idx.len() < 1 + n {
        return Option::None;
    }
    Option::Some(slice_to_vec(slice_subrange(idx.as_slice(), 1, 1 + n)))
}

} // verus!
