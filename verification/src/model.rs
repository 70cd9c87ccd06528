//! The mathematical model of the windowed merge-deduplication engine.
//!
//! The engine alternates two phases until every stream is exhausted and the
//! pending set is empty:
//!
//! * refill — entered when the pending set is empty: peek every active
//!   stream; a stream sitting at a decode failure aborts the whole tab; an
//!   exhausted stream is dropped; otherwise the earliest head (ties to the
//!   lowest stream index) is consumed into the pending set.
//! * admit-and-commit — entered when the pending set is non-empty: with
//!   `floor` the earliest pending timestamp, every stream is drained of the
//!   messages not beyond `floor + window`; each drained message is discarded
//!   as a duplicate if some pending message has the same sender, kind and
//!   body, and inserted into the pending set otherwise.  Then the earliest
//!   pending message (ties to the earliest inserted) is committed to the
//!   output.
//!
//! The executable engine is proved equal to `run` on its inputs; the laws
//! about the engine are proved of `run`.

use vstd::prelude::*;
use crate::message::Message;
use crate::message::dup_match;

verus! {

/// One input stream as the engine sees it: the messages not yet consumed,
/// and whether the stream ends in a decode failure instead of end-of-data.
pub struct StreamModel {
    pub rest: Seq<Message>,
    pub failed: bool,
}

/// The full engine state.  `committed_safely` records, across the whole
/// run, that every commit happened only once no active stream could still
/// yield a message within `window` of the committed one.
pub struct EngineModel {
    pub streams: Seq<StreamModel>,
    pub active: Seq<bool>,
    pub pending: Seq<Message>,
    pub emitted: Seq<Message>,
    pub warnings: Seq<(Message, int)>,
    pub window: int,
    pub dupe_warning: bool,
    pub aborted: bool,
    pub committed_safely: bool,
}

pub open spec fn stream_count(s: EngineModel) -> int {
    s.streams.len() as int
}

pub open spec fn wf(s: EngineModel) -> bool {
    &&& s.active.len() == s.streams.len()
    &&& s.window >= 0
}

/// Stream `i` can be peeked and yields a message.
pub open spec fn has_head(s: EngineModel, i: int) -> bool {
    0 <= i < stream_count(s) && s.active[i] && s.streams[i].rest.len() > 0
}

pub open spec fn head(s: EngineModel, i: int) -> Message {
    s.streams[i].rest[0]
}

/// Stream `i` is still active but its next read reports a decode failure.
pub open spec fn at_failure(s: EngineModel, i: int) -> bool {
    0 <= i < stream_count(s) && s.active[i] && s.streams[i].rest.len() == 0
        && s.streams[i].failed
}

/// Stream `i` is still active but cleanly out of data.
pub open spec fn at_eos(s: EngineModel, i: int) -> bool {
    0 <= i < stream_count(s) && s.active[i] && s.streams[i].rest.len() == 0
        && !s.streams[i].failed
}

pub open spec fn any_failure(s: EngineModel) -> bool {
    exists|i: int| at_failure(s, i)
}

/// Drop every cleanly exhausted stream from the active set.
pub open spec fn drop_ended(s: EngineModel) -> EngineModel {
    EngineModel { active: Seq::new(s.active.len(), |i: int| s.active[i] && !at_eos(s, i)), ..s }
}

/// The candidate refill choice after also considering stream `i`:
/// a strictly earlier head displaces the best so far, so ties go to the
/// lowest stream index.
pub open spec fn better_choice(s: EngineModel, best: Option<int>, i: int) -> Option<int> {
    if has_head(s, i) {
        match best {
            Option::None => Option::Some(i),
            Option::Some(j) => if head(s, j).ts <= head(s, i).ts {
                Option::Some(j)
            } else {
                Option::Some(i)
            },
        }
    } else {
        best
    }
}

/// The refill choice over streams `i..`, accumulated from the prefix.
pub open spec fn best_from(s: EngineModel, i: int, best: Option<int>) -> Option<int>
    decreases stream_count(s) - i,
{
    if 0 <= i < stream_count(s) {
        best_from(s, i + 1, better_choice(s, best, i))
    } else {
        best
    }
}

/// Where the refill phase draws from: the stream with the earliest head,
/// ties to the lowest index; `None` when every stream is done.
pub open spec fn best_head(s: EngineModel) -> Option<int> {
    best_from(s, 0, Option::None)
}

/// The messages of stream `i` with its first one consumed.
pub open spec fn advance_stream(s: EngineModel, i: int) -> Seq<StreamModel> {
    s.streams.update(i, StreamModel { rest: s.streams[i].rest.skip(1), failed: s.streams[i].failed })
}

/// Refill: consume the head of stream `i` into the empty pending set.
pub open spec fn consume_first(s: EngineModel, i: int) -> EngineModel {
    EngineModel { streams: advance_stream(s, i), pending: seq![head(s, i)], ..s }
}

/// How many pending messages in the first `k` duplicate-match `m`.
pub open spec fn match_count_upto(p: Seq<Message>, m: Message, k: int) -> int
    decreases k,
{
    if k <= 0 {
        0
    } else {
        match_count_upto(p, m, k - 1) + if dup_match(p[k - 1], m) {
            1int
        } else {
            0int
        }
    }
}

pub open spec fn match_count(p: Seq<Message>, m: Message) -> int {
    match_count_upto(p, m, p.len() as int)
}

/// The position at which `m` enters the pending set: after every entry
/// whose timestamp is not later, so equal timestamps keep insertion order.
pub open spec fn insert_index(p: Seq<Message>, m: Message, i: int) -> int
    decreases p.len() - i,
{
    if 0 <= i < p.len() && p[i].ts <= m.ts {
        insert_index(p, m, i + 1)
    } else {
        i
    }
}

pub open spec fn pend_insert(p: Seq<Message>, m: Message) -> Seq<Message> {
    p.insert(insert_index(p, m, 0), m)
}

/// Admit the head of stream `i`: consume it, then either discard it as a
/// duplicate of some pending message (warning when more than one pending
/// message matches and warnings are on) or insert it into the pending set.
pub open spec fn admit_message(s: EngineModel, i: int) -> EngineModel {
    let m = head(s, i);
    let c = match_count(s.pending, m);
    let s1 = EngineModel { streams: advance_stream(s, i), ..s };
    if c > 0 {
        if s.dupe_warning && c > 1 {
            EngineModel { warnings: s1.warnings.push((m, c)), ..s1 }
        } else {
            s1
        }
    } else {
        EngineModel { pending: pend_insert(s1.pending, m), ..s1 }
    }
}

/// Drain stream `i` against `floor`: keep admitting its head while it is
/// not beyond `floor + window`; stop at the first head beyond the window;
/// drop the stream if it runs out of data; abort the tab if it reports a
/// decode failure.
pub open spec fn drain_stream(s: EngineModel, floor: int, i: int) -> EngineModel
    decreases s.streams[i].rest.len(),
{
    if s.aborted || !(0 <= i < stream_count(s)) || !s.active[i] {
        s
    } else if s.streams[i].rest.len() == 0 {
        if s.streams[i].failed {
            EngineModel { aborted: true, ..s }
        } else {
            EngineModel { active: s.active.update(i, false), ..s }
        }
    } else if head(s, i).ts > floor + s.window {
        s
    } else {
        drain_stream(admit_message(s, i), floor, i)
    }
}

/// One admit pass: drain every stream in index order against `floor`.
/// `n` is the stream count of `s`.
pub open spec fn sweep(s: EngineModel, floor: int, i: int, n: int) -> EngineModel
    decreases n - i,
{
    if s.aborted || !(i < n) {
        s
    } else {
        sweep(drain_stream(s, floor, i), floor, i + 1, n)
    }
}

/// No active stream can still yield a message within `window` of `m`.
pub open spec fn commit_guard(s: EngineModel, m: Message) -> bool {
    forall|i: int| has_head(s, i) ==> head(s, i).ts > m.ts + s.window
}

/// Commit the earliest pending message to the output.
pub open spec fn commit_front(s: EngineModel) -> EngineModel {
    if s.pending.len() == 0 {
        s
    } else {
        EngineModel {
            pending: s.pending.skip(1),
            emitted: s.emitted.push(s.pending[0]),
            committed_safely: s.committed_safely && commit_guard(s, s.pending[0]),
            ..s
        }
    }
}

/// The total number of unconsumed messages in streams `i..`.
pub open spec fn remaining_from(s: EngineModel, i: int) -> nat
    decreases stream_count(s) - i,
{
    if 0 <= i < stream_count(s) {
        s.streams[i].rest.len() + remaining_from(s, i + 1)
    } else {
        0
    }
}

pub open spec fn measure(s: EngineModel) -> nat {
    remaining_from(s, 0) + s.pending.len()
}

/// The engine itself: alternate refill and admit-and-commit until every
/// stream is exhausted and the pending set is empty, or a stream reports a
/// decode failure.
pub open spec fn run(s: EngineModel) -> EngineModel
    decreases measure(s), (if s.pending.len() == 0 { 1int } else { 0int }),
        when wf(s)
        via run_decreases
{
    if s.aborted {
        s
    } else if s.pending.len() == 0 {
        if any_failure(s) {
            EngineModel { aborted: true, ..s }
        } else {
            let s1 = drop_ended(s);
            match best_head(s1) {
                Option::None => s1,
                Option::Some(i) => run(consume_first(s1, i)),
            }
        }
    } else {
        let floor = s.pending[0].ts as int;
        let s1 = sweep(s, floor, 0, stream_count(s));
        if s1.aborted {
            s1
        } else {
            run(commit_front(s1))
        }
    }
}

/// The initial engine state over fully unread streams.
pub open spec fn init_model(
    streams: Seq<StreamModel>,
    window: int,
    dupe_warning: bool,
) -> EngineModel {
    EngineModel {
        streams,
        active: Seq::new(streams.len(), |i: int| true),
        pending: Seq::empty(),
        emitted: Seq::empty(),
        warnings: Seq::empty(),
        window,
        dupe_warning,
        aborted: false,
        committed_safely: true,
    }
}

/// The insertion position lies within the pending set.
pub proof fn lemma_insert_index_bounds(p: Seq<Message>, m: Message, i: int)
    requires
        0 <= i <= p.len(),
    ensures
        i <= insert_index(p, m, i) <= p.len(),
    decreases p.len() - i,
{
    if 0 <= i < p.len() && p[i].ts <= m.ts {
        lemma_insert_index_bounds(p, m, i + 1);
    }
}

/// Admitting a message moves one message out of a stream; the pending set
/// grows by at most that message.
pub proof fn lemma_admit_shape(s: EngineModel, i: int)
    requires
        has_head(s, i),
    ensures
        admit_message(s, i).streams.len() == s.streams.len(),
        admit_message(s, i).active == s.active,
        admit_message(s, i).window == s.window,
        admit_message(s, i).aborted == s.aborted,
        admit_message(s, i).streams[i].rest.len() == s.streams[i].rest.len() - 1,
        forall|j: int| 0 <= j < s.streams.len() && j != i
            ==> admit_message(s, i).streams[j] == s.streams[j],
        s.pending.len() <= admit_message(s, i).pending.len() <= s.pending.len() + 1,
{
    let m = head(s, i);
    let c = match_count(s.pending, m);
    if c <= 0 {
        lemma_insert_index_bounds(s.pending, m, 0);
        assert(admit_message(s, i).pending == pend_insert(s.pending, m));
        assert(pend_insert(s.pending, m).len() == s.pending.len() + 1);
    }
}

/// Streams that agree except that one has lost its first message have
/// remaining totals that differ by exactly one.
pub proof fn lemma_remaining_advance(s: EngineModel, s2: EngineModel, i: int, j: int)
    requires
        s2.streams.len() == s.streams.len(),
        0 <= i < s.streams.len(),
        s.streams[i].rest.len() > 0,
        s2.streams[i].rest.len() == s.streams[i].rest.len() - 1,
        forall|k: int| 0 <= k < s.streams.len() && k != i ==> s2.streams[k] == s.streams[k],
    ensures
        remaining_from(s2, j) == if 0 <= j <= i {
            remaining_from(s, j) - 1
        } else {
            remaining_from(s, j) as int
        },
    decreases stream_count(s) - j,
{
    if 0 <= j < stream_count(s) {
        lemma_remaining_advance(s, s2, i, j + 1);
    }
}

/// Draining never increases the measure, never revives a stream, and never
/// shrinks the pending set.
pub proof fn lemma_drain_measure(s: EngineModel, floor: int, i: int)
    requires
        s.active.len() == s.streams.len(),
    ensures
        drain_stream(s, floor, i).streams.len() == s.streams.len(),
        drain_stream(s, floor, i).active.len() == s.active.len(),
        drain_stream(s, floor, i).window == s.window,
        measure(drain_stream(s, floor, i)) <= measure(s),
        drain_stream(s, floor, i).pending.len() >= s.pending.len(),
    decreases s.streams[i].rest.len(),
{
    if s.aborted || !(0 <= i < stream_count(s)) || !s.active[i] {
    } else if s.streams[i].rest.len() == 0 {
        lemma_remaining_same(s, drain_stream(s, floor, i), 0);
    } else if head(s, i).ts > floor + s.window {
    } else {
        let s1 = admit_message(s, i);
        lemma_admit_shape(s, i);
        lemma_remaining_advance(s, s1, i, 0);
        lemma_drain_measure(s1, floor, i);
    }
}

/// A sweep never increases the measure, keeps the stream and active
/// counts, and never shrinks the pending set.
pub proof fn lemma_sweep_measure(s: EngineModel, floor: int, i: int, n: int)
    requires
        s.active.len() == s.streams.len(),
    ensures
        sweep(s, floor, i, n).streams.len() == s.streams.len(),
        sweep(s, floor, i, n).active.len() == s.active.len(),
        sweep(s, floor, i, n).window == s.window,
        measure(sweep(s, floor, i, n)) <= measure(s),
        sweep(s, floor, i, n).pending.len() >= s.pending.len(),
    decreases n - i,
{
    if s.aborted || !(i < n) {
    } else {
        lemma_drain_measure(s, floor, i);
        lemma_sweep_measure(drain_stream(s, floor, i), floor, i + 1, n);
    }
}

#[via_fn]
proof fn run_decreases(s: EngineModel) {
    if s.aborted {
    } else if s.pending.len() == 0 {
        if !any_failure(s) {
            let s1 = drop_ended(s);
            match best_head(s1) {
                Option::None => {},
                Option::Some(i) => {
                    lemma_best_from_has_head(s1, 0, Option::None);
                    let s2 = consume_first(s1, i);
                    assert(remaining_from(s1, 0) == remaining_from(s, 0)) by {
                        lemma_remaining_same(s, s1, 0);
                    }
                    lemma_remaining_advance(s1, s2, i, 0);
                },
            }
        }
    } else {
        let floor = s.pending[0].ts as int;
        let s1 = sweep(s, floor, 0, stream_count(s));
        lemma_sweep_measure(s, floor, 0, stream_count(s));
        if !s1.aborted {
            assert(s1.pending.len() > 0);
            lemma_remaining_same(s1, commit_front(s1), 0);
            assert(measure(commit_front(s1)) < measure(s1) + 1);
        }
    }
}

/// States with the same streams have the same remaining totals.
pub proof fn lemma_remaining_same(s: EngineModel, s2: EngineModel, j: int)
    requires
        s2.streams == s.streams,
    ensures
        remaining_from(s2, j) == remaining_from(s, j),
    decreases stream_count(s) - j,
{
    if 0 <= j < stream_count(s) {
        lemma_remaining_same(s, s2, j + 1);
    }
}

/// Whatever `best_from` returns, beyond its accumulator, has a head.
proof fn lemma_best_from_has_head(s: EngineModel, i: int, best: Option<int>)
    requires
        best matches Option::Some(j) ==> has_head(s, j),
    ensures
        best_from(s, i, best) matches Option::Some(j) ==> has_head(s, j),
    decreases stream_count(s) - i,
{
    if 0 <= i < stream_count(s) {
        lemma_best_from_has_head(s, i + 1, better_choice(s, best, i));
    }
}

} // verus!
