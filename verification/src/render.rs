//! Human-readable rendering of messages: the timestamp as a calendar date
//! and time of day, and the kind-specific line layout.

use vstd::prelude::*;
use crate::message::Message;
use crate::message::MessageKind;
use crate::message::MessageView;

verus! {

/// The civil date of a day count since 1970-01-01, via the era
/// decomposition of the Gregorian calendar: years, month and day.
pub open spec fn civil_year(days: int) -> int {
    let z = days + 719468;
    let era = z / 146097;
    let doe = z % 146097;
    let yoe = (doe - doe / 1460 + doe / 36524 - doe / 146096) / 365;
    let doy = doe - (365 * yoe + yoe / 4 - yoe / 100);
    let mp = (5 * doy + 2) / 153;
    let m = if mp < 10 {
        mp + 3
    } else {
        mp - 9
    };
    if m <= 2 {
        yoe + era * 400 + 1
    } else {
        yoe + era * 400
    }
}

pub open spec fn civil_month(days: int) -> int {
    let z = days + 719468;
    let doe = z % 146097;
    let yoe = (doe - doe / 1460 + doe / 36524 - doe / 146096) / 365;
    let doy = doe - (365 * yoe + yoe / 4 - yoe / 100);
    let mp = (5 * doy + 2) / 153;
    if mp < 10 {
        mp + 3
    } else {
        mp - 9
    }
}

pub open spec fn civil_day(days: int) -> int {
    let z = days + 719468;
    let doe = z % 146097;
    let yoe = (doe - doe / 1460 + doe / 36524 - doe / 146096) / 365;
    let doy = doe - (365 * yoe + yoe / 4 - yoe / 100);
    let mp = (5 * doy + 2) / 153;
    doy - (153 * mp + 2) / 5 + 1
}

/// Two decimal digits, zero-padded, as ASCII bytes.
pub open spec fn two_digits(n: int) -> Seq<u8> {
    seq![(48 + n / 10) as u8, (48 + n % 10) as u8]
}

/// Four decimal digits, zero-padded, as ASCII bytes.
pub open spec fn four_digits(n: int) -> Seq<u8> {
    two_digits(n / 100) + two_digits(n % 100)
}

/// `YYYY-MM-DD HH:MM:SS` for an epoch-second timestamp.
pub open spec fn datetime_text(ts: u32) -> Seq<u8> {
    let days = ts as int / 86400;
    let sod = ts as int % 86400;
    four_digits(civil_year(days)) + seq![45u8] + two_digits(civil_month(days)) + seq![45u8]
        + two_digits(civil_day(days)) + seq![32u8] + two_digits(sod / 3600) + seq![58u8]
        + two_digits((sod / 60) % 60) + seq![58u8] + two_digits(sod % 60)
}

/// The rendered line of a message: the bracketed timestamp, then the
/// kind-specific layout of sender and body.
pub open spec fn rendered(v: MessageView) -> Seq<u8> {
    seq![91u8] + datetime_text(v.ts) + seq![93u8, 32u8] + (match v.kind {
        MessageKind::Message => v.sender + seq![58u8, 32u8] + v.body,
        MessageKind::Action => v.sender + v.body,
        MessageKind::Ad => v.sender + seq![94u8, 32u8] + v.body,
        MessageKind::Roll => seq![42u8, 32u8] + v.sender + v.body,
        MessageKind::Warn => seq![33u8, 32u8] + v.sender + seq![58u8, 32u8] + v.body,
        MessageKind::Event => seq![63u8, 32u8] + v.sender + v.body,
    })
}

fn push_two_digits(out: &mut Vec<u8>, n: u32)
    requires
        n < 100,
    ensures
        final(out)@ == old(out)@ + two_digits(n as int),
{
    out.push((48 + n / 10) as u8);
    out.push((48 + n % 10) as u8);
    proof {
        assert(out@ =~= old(out)@ + two_digits(n as int));
    }
}

fn append_vec(out: &mut Vec<u8>, b: &Vec<u8>)
    ensures
        final(out)@ == old(out)@ + b@,
{
    let mut i: usize = 0;
    while i < b.len()
        invariant
            i <= b@.len(),
            out@ == old(out)@ + b@.subrange(0, i as int),
        decreases b@.len() - i,
    {
        out.push(b[i]);
        proof {
            assert(out@ =~= old(out)@ + b@.subrange(0, i + 1));
        }
        i += 1;
    }
    proof {
        assert(out@ =~= old(out)@ + b@);
    }
}

/// Render a timestamp as `YYYY-MM-DD HH:MM:SS`.
pub fn datetime_bytes(ts: u32) -> (r: Vec<u8>)
    ensures
        r@ == datetime_text(ts),
{
    let days = ts / 86400;
    let sod = ts % 86400;
    let z = days + 719468;
    let era = z / 146097;
    let doe = z % 146097;
    let yoe = (doe - doe / 1460 + doe / 36524 - doe / 146096) / 365;
    let doy = doe - (365 * yoe + yoe / 4 - yoe / 100);
    let mp = (5 * doy + 2) / 153;
    let m = if mp < 10 {
        mp + 3
    } else {
        mp - 9
    };
    let d = doy - (153 * mp + 2) / 5 + 1;
    let y = if m <= 2 {
        yoe + era * 400 + 1
    } else {
        yoe + era * 400
    };
    let mut out: Vec<u8> = Vec::new();
    proof {
        assert(y == civil_year(days as int));
        assert(m == civil_month(days as int));
        assert(d == civil_day(days as int));
    }
    push_two_digits(&mut out, y / 100);
    push_two_digits(&mut out, y % 100);
    out.push(45);
    push_two_digits(&mut out, m);
    out.push(45);
    push_two_digits(&mut out, d);
    out.push(32);
    push_two_digits(&mut out, sod / 3600);
    out.push(58);
    push_two_digits(&mut out, (sod / 60) % 60);
    out.push(58);
    push_two_digits(&mut out, sod % 60);
    proof {
        assert(out@ =~= datetime_text(ts));
    }
    out
}

/// Render one message as its display line, as the duplicate warnings and
/// the debug trace show it.
pub fn format_message(m: &Message) -> (r: Vec<u8>)
    ensures
        r@ == rendered(m@),
{
    let mut out: Vec<u8> = Vec::new();
    out.push(91);
    let dt = datetime_bytes(m.ts);
    append_vec(&mut out, &dt);
    out.push(93);
    out.push(32);
    match m.kind {
        MessageKind::Message => {
            append_vec(&mut out, &m.sender);
            out.push(58);
            out.push(32);
            append_vec(&mut out, &m.body);
        },
        MessageKind::Action => {
            append_vec(&mut out, &m.sender);
            append_vec(&mut out, &m.body);
        },
        MessageKind::Ad => {
            append_vec(&mut out, &m.sender);
            out.push(94);
            out.push(32);
            append_vec(&mut out, &m.body);
        },
        MessageKind::Roll => {
            out.push(42);
            out.push(32);
            append_vec(&mut out, &m.sender);
            append_vec(&mut out, &m.body);
        },
        MessageKind::Warn => {
            out.push(33);
            out.push(32);
            append_vec(&mut out, &m.sender);
            out.push(58);
            out.push(32);
            append_vec(&mut out, &m.body);
        },
        MessageKind::Event => {
            out.push(63);
            out.push(32);
            append_vec(&mut out, &m.sender);
            append_vec(&mut out, &m.body);
        },
    }
    proof {
        assert(out@ =~= rendered(m@));
    }
    out
}

} // verus!
