//! Proved laws of the merge engine, stated over the model in `model`.
//!
//! Throughout, input streams are assumed time-ordered, the standing
//! external invariant of the source logs.

use vstd::prelude::*;
use crate::message::Message;
use crate::model::EngineModel;
use crate::model::StreamModel;
use crate::model::admit_message;
use crate::model::advance_stream;
use crate::model::any_failure;
use crate::model::at_eos;
use crate::model::at_failure;
use crate::model::best_from;
use crate::model::best_head;
use crate::model::better_choice;
use crate::model::commit_front;
use crate::model::commit_guard;
use crate::model::consume_first;
use crate::model::drain_stream;
use crate::model::drop_ended;
use crate::model::has_head;
use crate::model::head;
use crate::model::init_model;
use crate::model::insert_index;
use crate::model::lemma_remaining_advance;
use crate::model::lemma_remaining_same;
use crate::model::lemma_sweep_measure;
use crate::model::match_count;
use crate::model::match_count_upto;
use crate::model::measure;
use crate::model::pend_insert;
use crate::model::run;
use crate::model::stream_count;
use crate::model::sweep;
use crate::model::wf;

verus! {

/// Timestamps never decrease along the sequence.
pub open spec fn ts_sorted(ms: Seq<Message>) -> bool {
    forall|a: int, b: int| 0 <= a <= b < ms.len() ==> ms[a].ts <= ms[b].ts
}

/// The engine's running invariant over time-ordered inputs: streams,
/// pending set and output are each time-ordered; no reachable message is
/// earlier than the last committed one; no reachable message is earlier
/// than the earliest pending one; and the pending set spans at most one
/// window.
pub open spec fn engine_inv(s: EngineModel) -> bool {
    &&& wf(s)
    &&& forall|i: int| 0 <= i < stream_count(s) ==> ts_sorted((#[trigger] s.streams[i]).rest)
    &&& ts_sorted(s.pending)
    &&& ts_sorted(s.emitted)
    &&& forall|i: int| #[trigger] has_head(s, i) && s.emitted.len() > 0 ==> head(s, i).ts
        >= s.emitted.last().ts
    &&& forall|k: int| 0 <= k < s.pending.len() && s.emitted.len() > 0 ==> (#[trigger] s.pending[
        k]).ts >= s.emitted.last().ts
    &&& forall|i: int| #[trigger] has_head(s, i) && s.pending.len() > 0 ==> head(s, i).ts
        >= s.pending[0].ts
    &&& forall|k: int| 0 <= k < s.pending.len() ==> (#[trigger] s.pending[k]).ts
        <= s.pending[0].ts + s.window
}

proof fn lemma_insert_props(p: Seq<Message>, m: Message, i: int)
    requires
        0 <= i <= p.len(),
    ensures
        i <= insert_index(p, m, i) <= p.len(),
        forall|q: int| i <= q < insert_index(p, m, i) ==> (#[trigger] p[q]).ts <= m.ts,
        insert_index(p, m, i) < p.len() ==> p[insert_index(p, m, i)].ts > m.ts,
    decreases p.len() - i,
{
    if 0 <= i < p.len() && p[i].ts <= m.ts {
        lemma_insert_props(p, m, i + 1);
    }
}

/// Shape of the pending set after an insertion: the new message sits after
/// every entry with an earlier or equal timestamp, order is preserved, and
/// with a new message no earlier than the front, the front is preserved.
#[verifier::spinoff_prover]
#[verifier::rlimit(100)]
proof fn lemma_pend_insert(p: Seq<Message>, m: Message)
    ensures
        pend_insert(p, m).len() == p.len() + 1,
        p.len() > 0 && m.ts >= p[0].ts ==> pend_insert(p, m)[0] == p[0],
        p.len() == 0 ==> pend_insert(p, m)[0] == m,
        forall|k: int| 0 <= k < pend_insert(p, m).len() ==> (#[trigger] pend_insert(p, m)[k]) == m
            || (exists|q: int| 0 <= q < p.len() && pend_insert(p, m)[k] == p[q]),
        ts_sorted(p) ==> ts_sorted(pend_insert(p, m)),
{
    let idx = insert_index(p, m, 0);
    lemma_insert_props(p, m, 0);
    p.insert_ensures(idx, m);
    let np = pend_insert(p, m);
    assert forall|k: int| 0 <= k < np.len() implies (#[trigger] np[k]) == m || (exists|q: int|
        0 <= q < p.len() && np[k] == p[q]) by {
        if k < idx {
            assert(np[k] == p[k]);
        } else if k == idx {
        } else {
            assert(np[k] == p[k - 1]);
        }
    }
    if ts_sorted(p) {
        assert forall|a: int, b: int| 0 <= a <= b < np.len() implies np[a].ts <= np[b].ts by {
            if b < idx {
            } else if a > idx {
                assert(np[a] == p[a - 1] && np[b] == p[b - 1]);
            } else if a == idx {
                if b > idx {
                    assert(np[b] == p[b - 1] && b - 1 >= idx);
                }
            } else if b == idx {
                assert(np[a] == p[a]);
            } else {
                assert(np[a] == p[a] && np[b] == p[b - 1] && b - 1 >= idx);
            }
        }
    }
}

/// The refill choice is a least head: every peekable stream from `i` on is
/// no earlier, and the accumulator never gets worse.
proof fn lemma_best_min(s: EngineModel, i: int, b: Option<int>)
    requires
        0 <= i,
        b matches Option::Some(j) ==> has_head(s, j),
    ensures
        ({
            match best_from(s, i, b) {
                Option::Some(j) => has_head(s, j) && (forall|q: int| i <= q && #[trigger]
                    has_head(s, q) ==> head(s, q).ts >= head(s, j).ts) && (match b {
                    Option::Some(j0) => head(s, j).ts <= head(s, j0).ts,
                    Option::None => true,
                }),
                Option::None => true,
            }
        }),
    decreases stream_count(s) - i,
{
    if 0 <= i < stream_count(s) {
        let b2 = better_choice(s, b, i);
        lemma_best_min(s, i + 1, b2);
        assert(best_from(s, i, b) == best_from(s, i + 1, b2));
        match best_from(s, i + 1, b2) {
            Option::Some(j) => {
                assert forall|q: int| i <= q && #[trigger] has_head(s, q) implies head(s, q).ts
                    >= head(s, j).ts by {
                    if q == i {
                        match b2 {
                            Option::Some(j2) => {
                                assert(head(s, j).ts <= head(s, j2).ts);
                                assert(head(s, j2).ts <= head(s, i).ts);
                            },
                            Option::None => {},
                        }
                    }
                }
                match b {
                    Option::Some(j0) => {
                        match b2 {
                            Option::Some(j2) => {
                                assert(head(s, j2).ts <= head(s, j0).ts);
                            },
                            Option::None => {},
                        }
                    },
                    Option::None => {},
                }
            },
            Option::None => {},
        }
    }
}

/// Draining one stream preserves the running invariant, never touches the
/// output or the safety record, keeps the pending front, leaves the other
/// streams alone, and leaves this stream past the window or inactive.
#[verifier::spinoff_prover]
#[verifier::rlimit(100)]
proof fn lemma_drain_inv(s: EngineModel, floor: int, i: int)
    requires
        engine_inv(s),
        !s.aborted,
        s.pending.len() > 0,
        s.pending[0].ts as int == floor,
    ensures
        drain_stream(s, floor, i).emitted == s.emitted,
        drain_stream(s, floor, i).committed_safely == s.committed_safely,
        drain_stream(s, floor, i).window == s.window,
        drain_stream(s, floor, i).streams.len() == s.streams.len(),
        drain_stream(s, floor, i).active.len() == s.active.len(),
        drain_stream(s, floor, i).pending.len() > 0,
        drain_stream(s, floor, i).pending[0] == s.pending[0],
        forall|j: int| 0 <= j < s.streams.len() && j != i ==> (#[trigger] drain_stream(s, floor,
            i).streams[j]) == s.streams[j] && drain_stream(s, floor, i).active[j] == s.active[j],
        !drain_stream(s, floor, i).aborted ==> engine_inv(drain_stream(s, floor, i)) && (has_head(
            drain_stream(s, floor, i), i) ==> head(drain_stream(s, floor, i), i).ts > floor
            + s.window),
    decreases s.streams[i].rest.len(),
{
    if s.aborted || !(0 <= i < stream_count(s)) || !s.active[i] {
    } else if s.streams[i].rest.len() == 0 {
        if s.streams[i].failed {
        } else {
            let s2 = drain_stream(s, floor, i);
            assert forall|j: int| #[trigger] has_head(s2, j) implies has_head(s, j) && head(
                s2, j) == head(s, j) by {}
        }
    } else if head(s, i).ts > floor + s.window {
    } else {
        let m = head(s, i);
        let s1 = admit_message(s, i);
        assert(has_head(s, i));
        assert(m.ts >= floor);
        let c = match_count(s.pending, m);
        assert(s1.streams == advance_stream(s, i));
        assert(s1.streams[i].rest == s.streams[i].rest.skip(1));
        assert(ts_sorted(s1.streams[i].rest)) by {
            assert forall|a: int, b: int| 0 <= a <= b < s1.streams[i].rest.len() implies s1.streams[
                i].rest[a].ts <= s1.streams[i].rest[b].ts by {
                assert(s1.streams[i].rest[a] == s.streams[i].rest[a + 1]);
                assert(s1.streams[i].rest[b] == s.streams[i].rest[b + 1]);
            }
        }
        assert forall|j: int| #[trigger] has_head(s1, j) implies head(s1, j).ts >= floor && (
            s1.emitted.len() > 0 ==> head(s1, j).ts >= s1.emitted.last().ts) by {
            if j == i {
                assert(s1.streams[i].rest[0] == s.streams[i].rest[1]);
                assert(s.streams[i].rest[0].ts <= s.streams[i].rest[1].ts);
                assert(m.ts >= floor);
                if s.emitted.len() > 0 {
                    assert(m.ts >= s.emitted.last().ts);
                }
            } else {
                assert(has_head(s, j));
                assert(head(s1, j) == head(s, j));
            }
        }
        if c > 0 {
            assert(engine_inv(s1));
        } else {
            lemma_pend_insert(s.pending, m);
            assert(engine_inv(s1)) by {
                assert forall|k: int| 0 <= k < s1.pending.len() && s1.emitted.len() > 0 implies (
                    #[trigger] s1.pending[k]).ts >= s1.emitted.last().ts by {
                    if s1.pending[k] == m {
                        assert(m.ts >= s.emitted.last().ts);
                    } else {
                        let q = choose|q: int| 0 <= q < s.pending.len() && s1.pending[k]
                            == s.pending[q];
                        assert(s.pending[q].ts >= s.emitted.last().ts);
                    }
                }
                assert forall|k: int| 0 <= k < s1.pending.len() implies (#[trigger] s1.pending[
                    k]).ts <= s1.pending[0].ts + s1.window by {
                    assert(s1.pending[0] == s.pending[0]);
                    if s1.pending[k] == m {
                    } else {
                        let q = choose|q: int| 0 <= q < s.pending.len() && s1.pending[k]
                            == s.pending[q];
                        assert(s.pending[q].ts <= s.pending[0].ts + s.window);
                    }
                }
            }
        }
        lemma_drain_inv(s1, floor, i);
        let s2 = drain_stream(s1, floor, i);
        assert(drain_stream(s, floor, i) == s2);
        assert(s2.pending[0] == s.pending[0]);
        assert(s2.emitted == s.emitted);
        assert forall|j: int| 0 <= j < s.streams.len() && j != i implies (#[trigger] s2.streams[
            j]) == s.streams[j] && s2.active[j] == s.active[j] by {
            let upd = StreamModel { rest: s.streams[i].rest.skip(1), failed: s.streams[i].failed };
            assert(s1.streams == s.streams.update(i, upd));
            assert(s1.streams.len() == s.streams.len());
            assert(s2.streams[j] == s1.streams[j]);
            assert(s.streams.update(i, upd)[j] == s.streams[j]);
            assert(s1.active[j] == s.active[j]);
            assert(s2.active[j] == s1.active[j]);
        }
    }
}

/// A whole pass preserves the running invariant, never touches the output
/// or the safety record, keeps the pending front, and leaves every
/// still-peekable stream strictly past the window.
proof fn lemma_sweep_inv(s: EngineModel, floor: int, i: int, n: int)
    requires
        engine_inv(s),
        !s.aborted,
        s.pending.len() > 0,
        s.pending[0].ts as int == floor,
        n == stream_count(s),
        forall|j: int| j < i && #[trigger] has_head(s, j) ==> head(s, j).ts > floor + s.window,
    ensures
        ({
            let s2 = sweep(s, floor, i, n);
            &&& s2.emitted == s.emitted
            &&& s2.committed_safely == s.committed_safely
            &&& s2.window == s.window
            &&& s2.streams.len() == s.streams.len()
            &&& (!s2.aborted ==> engine_inv(s2) && s2.pending.len() > 0 && s2.pending[0]
                == s.pending[0] && (forall|j: int| #[trigger] has_head(s2, j) ==> head(s2, j).ts
                > floor + s.window))
        }),
    decreases n - i,
{
    if s.aborted || !(i < n) {
    } else {
        let s1 = drain_stream(s, floor, i);
        lemma_drain_inv(s, floor, i);
        if s1.aborted {
            assert(sweep(s1, floor, i + 1, n) == s1);
        } else {
            assert forall|j: int| j < i + 1 && #[trigger] has_head(s1, j) implies head(s1, j).ts
                > floor + s1.window by {
                if j < i {
                    assert(s1.streams[j] == s.streams[j] && s1.active[j] == s.active[j]);
                    assert(has_head(s, j) && head(s1, j) == head(s, j));
                }
            }
            lemma_sweep_inv(s1, floor, i + 1, n);
        }
    }
}

/// The run induction: over a state satisfying the running invariant, the
/// engine keeps the safety record intact — every commit is guarded — and
/// its output is time-ordered.
pub proof fn lemma_run_inv(s: EngineModel)
    requires
        engine_inv(s),
    ensures
        run(s).committed_safely == s.committed_safely,
        ts_sorted(run(s).emitted),
    decreases measure(s), (if s.pending.len() == 0 { 1int } else { 0int }),
{
    if s.aborted {
    } else if s.pending.len() == 0 {
        if any_failure(s) {
        } else {
            let sd = drop_ended(s);
            assert(sd.streams == s.streams);
            assert forall|j: int| #[trigger] has_head(sd, j) implies has_head(s, j) && head(
                sd, j) == head(s, j) by {}
            assert forall|j: int| #[trigger] has_head(s, j) implies has_head(sd, j) by {
                assert(!at_eos(s, j));
            }
            assert(engine_inv(sd));
            match best_head(sd) {
                Option::None => {
                    assert(run(s) == sd);
                },
                Option::Some(j) => {
                    lemma_best_min(sd, 0, Option::None);
                    let m = head(sd, j);
                    let s2 = consume_first(sd, j);
                    assert(s2.pending == seq![m]);
                    assert(s2.streams[j].rest == sd.streams[j].rest.skip(1));
                    assert(ts_sorted(s2.streams[j].rest)) by {
                        assert forall|a: int, b: int| 0 <= a <= b < s2.streams[j].rest.len()
                            implies s2.streams[j].rest[a].ts <= s2.streams[j].rest[b].ts by {
                            assert(s2.streams[j].rest[a] == sd.streams[j].rest[a + 1]);
                            assert(s2.streams[j].rest[b] == sd.streams[j].rest[b + 1]);
                        }
                    }
                    assert forall|q: int| #[trigger] has_head(s2, q) implies head(s2, q).ts
                        >= m.ts by {
                        if q == j {
                            assert(head(s2, q) == sd.streams[j].rest[1]);
                        } else {
                            assert(has_head(sd, q) && head(s2, q) == head(sd, q));
                        }
                    }
                    assert(engine_inv(s2));
                    lemma_remaining_same(s, sd, 0);
                    lemma_remaining_advance(sd, s2, j, 0);
                    lemma_run_inv(s2);
                    assert(run(s) == run(s2));
                },
            }
        }
    } else {
        let floor = s.pending[0].ts as int;
        let n = stream_count(s);
        let s1 = sweep(s, floor, 0, n);
        lemma_sweep_inv(s, floor, 0, n);
        lemma_sweep_measure(s, floor, 0, n);
        if s1.aborted {
            assert(run(s) == s1);
        } else {
            let cf = commit_front(s1);
            assert(commit_guard(s1, s1.pending[0]));
            assert(cf.committed_safely == s.committed_safely);
            assert(cf.emitted == s1.emitted.push(s1.pending[0]));
            assert(ts_sorted(cf.emitted)) by {
                assert forall|a: int, b: int| 0 <= a <= b < cf.emitted.len() implies cf.emitted[
                    a].ts <= cf.emitted[b].ts by {
                    if b < cf.emitted.len() - 1 {
                        assert(cf.emitted[a] == s1.emitted[a] && cf.emitted[b] == s1.emitted[b]);
                    } else if a < b {
                        assert(cf.emitted[a] == s1.emitted[a]);
                        assert(cf.emitted[b] == s1.pending[0]);
                        assert(s1.emitted[a].ts <= s1.emitted.last().ts);
                        assert(s1.pending[0].ts >= s1.emitted.last().ts);
                    }
                }
            }
            assert(engine_inv(cf)) by {
                assert(cf.pending == s1.pending.skip(1));
                assert(cf.emitted.last() == s1.pending[0]);
                assert forall|k: int| 0 <= k < cf.pending.len() implies (#[trigger] cf.pending[
                    k]).ts >= cf.emitted.last().ts && cf.pending[k].ts <= (if cf.pending.len()
                    > 0 { cf.pending[0].ts + cf.window } else { 0 }) by {
                    assert(cf.pending[k] == s1.pending[k + 1]);
                    assert(s1.pending[k + 1].ts >= s1.pending[0].ts);
                    assert(s1.pending[k + 1].ts <= s1.pending[0].ts + s1.window);
                    if cf.pending.len() > 0 {
                        assert(cf.pending[0] == s1.pending[1]);
                        assert(s1.pending[1].ts >= s1.pending[0].ts);
                    }
                }
                assert forall|j: int| #[trigger] has_head(cf, j) implies (cf.emitted.len() > 0
                    ==> head(cf, j).ts >= cf.emitted.last().ts) && (cf.pending.len() > 0 ==> head(
                    cf, j).ts >= cf.pending[0].ts) by {
                    assert(has_head(s1, j) && head(cf, j) == head(s1, j));
                    assert(head(s1, j).ts > floor + s1.window);
                    if cf.pending.len() > 0 {
                        assert(cf.pending[0] == s1.pending[1]);
                        assert(s1.pending[1].ts <= s1.pending[0].ts + s1.window);
                    }
                }
                assert(ts_sorted(cf.pending)) by {
                    assert forall|a: int, b: int| 0 <= a <= b < cf.pending.len() implies cf.pending[
                        a].ts <= cf.pending[b].ts by {
                        assert(cf.pending[a] == s1.pending[a + 1]);
                        assert(cf.pending[b] == s1.pending[b + 1]);
                    }
                }
            }
            lemma_remaining_same(s1, cf, 0);
            lemma_run_inv(cf);
            assert(run(s) == run(cf));
        }
    }
}

/// Stripping the output already written does not change what a drain
/// does: the engine never reads its own output.
proof fn lemma_drain_emitted_frame(sa: EngineModel, floor: int, i: int)
    ensures
        ({
            let sb = EngineModel { emitted: Seq::empty(), ..sa };
            drain_stream(sa, floor, i) == EngineModel {
                emitted: sa.emitted,
                ..drain_stream(sb, floor, i)
            }
        }),
    decreases sa.streams[i].rest.len(),
{
    let sb = EngineModel { emitted: Seq::empty(), ..sa };
    if sa.aborted || !(0 <= i < stream_count(sa)) || !sa.active[i] {
    } else if sa.streams[i].rest.len() == 0 {
    } else if head(sa, i).ts > floor + sa.window {
    } else {
        assert(admit_message(sa, i) == EngineModel { emitted: sa.emitted, ..admit_message(sb, i) });
        lemma_drain_emitted_frame(admit_message(sa, i), floor, i);
        assert(EngineModel { emitted: Seq::empty(), ..admit_message(sa, i) } == admit_message(
            sb, i));
    }
}

/// Stripping the output already written does not change what a pass does.
proof fn lemma_sweep_emitted_frame(sa: EngineModel, floor: int, i: int, n: int)
    ensures
        ({
            let sb = EngineModel { emitted: Seq::empty(), ..sa };
            sweep(sa, floor, i, n) == EngineModel {
                emitted: sa.emitted,
                ..sweep(sb, floor, i, n)
            }
        }),
    decreases n - i,
{
    let sb = EngineModel { emitted: Seq::empty(), ..sa };
    if sa.aborted || !(i < n) {
    } else {
        lemma_drain_emitted_frame(sa, floor, i);
        lemma_drain_emitted_frame(sb, floor, i);
        assert(EngineModel { emitted: Seq::empty(), ..sb } == sb);
        lemma_sweep_emitted_frame(drain_stream(sa, floor, i), floor, i + 1, n);
        assert(EngineModel { emitted: Seq::empty(), ..drain_stream(sa, floor, i) } == drain_stream(
            sb, floor, i));
    }
}

/// The run of a state is the run of the same state with its output
/// stripped, with that output put back in front: the engine only ever
/// appends to its output.
#[verifier::spinoff_prover]
#[verifier::rlimit(100)]
proof fn lemma_run_emitted_frame(sa: EngineModel)
    requires
        wf(sa),
    ensures
        ({
            let sb = EngineModel { emitted: Seq::empty(), ..sa };
            run(sa) == EngineModel { emitted: sa.emitted + run(sb).emitted, ..run(sb) }
        }),
    decreases measure(sa), (if sa.pending.len() == 0 { 1int } else { 0int }),
{
    let sb = EngineModel { emitted: Seq::empty(), ..sa };
    lemma_remaining_same(sa, sb, 0);
    assert(wf(sb));
    if sa.aborted {
        assert(sa.emitted + run(sb).emitted =~= sa.emitted);
    } else if sa.pending.len() == 0 {
        assert(any_failure(sa) == any_failure(sb)) by {
            assert(forall|i: int| at_failure(sa, i) == at_failure(sb, i));
        }
        if any_failure(sa) {
            assert(sa.emitted + run(sb).emitted =~= sa.emitted);
        } else {
            let da = drop_ended(sa);
            let db = drop_ended(sb);
            assert(da.active =~= db.active);
            assert(db == EngineModel { emitted: Seq::empty(), ..da });
            assert(forall|j: int| has_head(da, j) == has_head(db, j) && head(da, j) == head(
                db, j));
            lemma_best_from_frame(da, db, 0, Option::None);
            match best_head(da) {
                Option::None => {
                    assert(run(sa) == da && run(sb) == db);
                    assert(sa.emitted + run(sb).emitted =~= sa.emitted);
                },
                Option::Some(j) => {
                    let ca = consume_first(da, j);
                    let cb = consume_first(db, j);
                    assert(advance_stream(db, j) == advance_stream(da, j));
                    assert(head(db, j) == head(da, j));
                    assert(cb == EngineModel { emitted: Seq::empty(), ..ca });
                    lemma_best_some_has_head(da, 0, Option::None);
                    assert(has_head(da, j));
                    assert(wf(ca));
                    lemma_remaining_same(sa, da, 0);
                    lemma_remaining_advance(da, ca, j, 0);
                    lemma_run_emitted_frame(ca);
                    assert(run(sa) == run(ca) && run(sb) == run(cb));
                },
            }
        }
    } else {
        let fl = sa.pending[0].ts as int;
        let n = stream_count(sa);
        let wa = sweep(sa, fl, 0, n);
        let wb = sweep(sb, fl, 0, n);
        lemma_sweep_emitted_frame(sa, fl, 0, n);
        lemma_sweep_emitted_frame(sb, fl, 0, n);
        assert(EngineModel { emitted: Seq::empty(), ..sb } == sb);
        assert(wb.emitted =~= Seq::<Message>::empty());
        assert(wb == EngineModel { emitted: Seq::empty(), ..wa });
        lemma_sweep_measure(sa, fl, 0, n);
        if wa.aborted {
            assert(run(sa) == wa && run(sb) == wb);
            assert(wa.emitted =~= sa.emitted + wb.emitted);
            assert(run(sa) == EngineModel { emitted: sa.emitted + run(sb).emitted, ..run(sb) });
        } else {
            let ca = commit_front(wa);
            let cb = commit_front(wb);
            assert(wa.pending.len() > 0);
            assert(commit_guard(wa, wa.pending[0]) == commit_guard(wb, wb.pending[0])) by {
                assert(forall|i: int| has_head(wa, i) == has_head(wb, i) && head(wa, i) == head(
                    wb, i));
            }
            assert(cb == EngineModel { emitted: wb.emitted.push(wb.pending[0]), ..ca });
            lemma_remaining_same(wa, wb, 0);
            lemma_remaining_same(wa, ca, 0);
            lemma_remaining_same(wb, cb, 0);
            assert(wf(ca) && wf(cb));
            lemma_run_emitted_frame(ca);
            let cb2 = EngineModel { emitted: Seq::empty(), ..ca };
            assert(run(sa) == run(ca) && run(sb) == run(cb));
            lemma_run_emitted_frame(cb);
            assert(EngineModel { emitted: Seq::empty(), ..cb } == cb2);
            assert(run(ca) == EngineModel { emitted: ca.emitted + run(cb2).emitted, ..run(cb2) });
            assert(run(cb) == EngineModel { emitted: cb.emitted + run(cb2).emitted, ..run(cb2) });
            assert(ca.emitted =~= sa.emitted + cb.emitted);
            assert(ca.emitted + run(cb2).emitted =~= sa.emitted + (cb.emitted + run(
                cb2).emitted));
        }
    }
}

/// `best_from` agrees on states with the same streams, heads and active
/// set.
proof fn lemma_best_from_frame(sa: EngineModel, sb: EngineModel, i: int, b: Option<int>)
    requires
        sa.streams == sb.streams,
        sa.active == sb.active,
    ensures
        best_from(sa, i, b) == best_from(sb, i, b),
    decreases stream_count(sa) - i,
{
    if 0 <= i < stream_count(sa) {
        assert(better_choice(sa, b, i) == better_choice(sb, b, i));
        lemma_best_from_frame(sa, sb, i + 1, better_choice(sa, b, i));
    }
}

/// Whatever `best_from` returns, beyond its accumulator, has a head.
proof fn lemma_best_some_has_head(s: EngineModel, i: int, best: Option<int>)
    requires
        best matches Option::Some(j) ==> has_head(s, j),
    ensures
        best_from(s, i, best) matches Option::Some(j) ==> has_head(s, j),
    decreases stream_count(s) - i,
{
    if 0 <= i < stream_count(s) {
        lemma_best_some_has_head(s, i + 1, better_choice(s, best, i));
    }
}

/// No two distinct messages of a stream that lie within one window of
/// each other are duplicates.
pub open spec fn no_window_dups(s: Seq<Message>, w: int) -> bool {
    forall|i: int, j: int| 0 <= i < j < s.len() && s[j].ts as int <= s[i].ts as int + w
        ==> !crate::message::dup_match(s[i], s[j])
}

proof fn lemma_match_count_zero(p: Seq<Message>, m: Message, j: int)
    requires
        j <= p.len(),
        forall|q: int| 0 <= q < j ==> !crate::message::dup_match(#[trigger] p[q], m),
    ensures
        match_count_upto(p, m, j) == 0,
    decreases j,
{
    if j > 0 {
        lemma_match_count_zero(p, m, j - 1);
    }
}

proof fn lemma_match_count_one(p: Seq<Message>, m: Message, idx: int, j: int)
    requires
        0 <= idx < p.len(),
        j <= p.len(),
        crate::message::dup_match(p[idx], m),
        forall|q: int| 0 <= q < p.len() && q != idx ==> !crate::message::dup_match(
            #[trigger] p[q], m),
    ensures
        match_count_upto(p, m, j) == if idx < j {
            1int
        } else {
            0int
        },
    decreases j,
{
    if j > 0 {
        lemma_match_count_one(p, m, idx, j - 1);
    }
}

proof fn lemma_insert_index_all_le(p: Seq<Message>, m: Message, i: int)
    requires
        0 <= i <= p.len(),
        forall|q: int| i <= q < p.len() ==> (#[trigger] p[q]).ts <= m.ts,
    ensures
        insert_index(p, m, i) == p.len(),
    decreases p.len() - i,
{
    if i < p.len() {
        lemma_insert_index_all_le(p, m, i + 1);
    }
}

/// Where a window pass started at `floor == s[e].ts` stops reading: the
/// first position at or past `k` whose message is beyond the window.
pub open spec fn ext_from(s: Seq<Message>, w: int, e: int, k: int) -> int
    decreases s.len() - k,
{
    if 0 <= k < s.len() && s[k].ts as int <= s[e].ts as int + w {
        ext_from(s, w, e, k + 1)
    } else {
        k
    }
}

proof fn lemma_ext_props(s: Seq<Message>, w: int, e: int, k: int)
    requires
        0 <= k <= s.len(),
    ensures
        k <= ext_from(s, w, e, k) <= s.len(),
        forall|i: int| k <= i < ext_from(s, w, e, k) ==> (#[trigger] s[i]).ts as int
            <= s[e].ts as int + w,
        ext_from(s, w, e, k) < s.len() ==> s[ext_from(s, w, e, k)].ts as int > s[e].ts as int
            + w,
    decreases s.len() - k,
{
    if 0 <= k < s.len() && s[k].ts as int <= s[e].ts as int + w {
        lemma_ext_props(s, w, e, k + 1);
    }
}

/// The state of merging a stream with its own copy, `e` messages
/// committed and both copies read to `b`: the pending set holds exactly
/// the messages in between, once each.
pub open spec fn twin_state(s: Seq<Message>, w: int, dupe: bool, e: int, b: int) -> EngineModel {
    EngineModel {
        streams: seq![
            StreamModel { rest: s.skip(b), failed: false },
            StreamModel { rest: s.skip(b), failed: false },
        ],
        active: seq![b < s.len(), b < s.len()],
        pending: s.subrange(e, b),
        emitted: s.take(e),
        warnings: Seq::empty(),
        window: w,
        dupe_warning: dupe,
        aborted: false,
        committed_safely: true,
    }
}

/// A mid-pass state of the twin run: the first copy read to `k`, the
/// second to `p1`, with the pending set holding `s[e..k)`.
pub open spec fn twin_fill(s: Seq<Message>, w: int, dupe: bool, e: int, k: int, p1: int,
    a0: bool, a1: bool) -> EngineModel {
    EngineModel {
        streams: seq![
            StreamModel { rest: s.skip(k), failed: false },
            StreamModel { rest: s.skip(p1), failed: false },
        ],
        active: seq![a0, a1],
        pending: s.subrange(e, k),
        emitted: s.take(e),
        warnings: Seq::empty(),
        window: w,
        dupe_warning: dupe,
        aborted: false,
        committed_safely: true,
    }
}

/// Draining the first copy admits everything up to the window boundary,
/// in place, without finding any duplicate.
proof fn lemma_twin_drain_first(s: Seq<Message>, w: int, dupe: bool, e: int, k: int, p1: int)
    requires
        ts_sorted(s),
        no_window_dups(s, w),
        w >= 0,
        0 <= e < k <= s.len(),
        0 <= p1 <= s.len(),
        forall|i: int| e <= i < k ==> (#[trigger] s[i]).ts as int <= s[e].ts as int + w,
    ensures
        drain_stream(twin_fill(s, w, dupe, e, k, p1, true, true), s[e].ts as int, 0)
            == twin_fill(s, w, dupe, e, ext_from(s, w, e, k), p1,
            ext_from(s, w, e, k) < s.len(), true),
    decreases s.len() - k,
{
    let fl = s[e].ts as int;
    let st = twin_fill(s, w, dupe, e, k, p1, true, true);
    lemma_ext_props(s, w, e, k);
    if k == s.len() {
        assert(st.streams[0].rest =~= Seq::<Message>::empty());
        let st2 = twin_fill(s, w, dupe, e, k, p1, false, true);
        assert(drain_stream(st, fl, 0) == EngineModel { active: st.active.update(0, false), ..st });
        assert(st.active.update(0, false) =~= st2.active);
        assert(ext_from(s, w, e, k) == k);
    } else if s[k].ts as int > fl + w {
        assert(st.streams[0].rest[0] == s[k]);
        assert(head(st, 0).ts as int > fl + st.window);
        assert(drain_stream(st, fl, 0) == st);
        assert(ext_from(s, w, e, k) == k);
        assert((k < s.len()) == true);
    } else {
        let m = s[k];
        assert(st.streams[0].rest[0] == m);
        assert(head(st, 0) == m);
        // No pending message duplicates it.
        assert forall|q: int| 0 <= q < st.pending.len() implies !crate::message::dup_match(
            #[trigger] st.pending[q], m) by {
            assert(st.pending[q] == s[e + q]);
            assert(s[e].ts <= s[e + q].ts);
            assert(m.ts as int <= s[e + q].ts as int + w);
        }
        lemma_match_count_zero(st.pending, m, st.pending.len() as int);
        assert(match_count(st.pending, m) == 0);
        // It is appended at the end of the pending set.
        assert forall|q: int| 0 <= q < st.pending.len() implies (#[trigger] st.pending[q]).ts
            <= m.ts by {
            assert(st.pending[q] == s[e + q]);
        }
        lemma_insert_index_all_le(st.pending, m, 0);
        let am = admit_message(st, 0);
        assert(am.pending == pend_insert(st.pending, m));
        assert(pend_insert(st.pending, m) =~= s.subrange(e, k + 1));
        let st3 = twin_fill(s, w, dupe, e, k + 1, p1, true, true);
        assert(am.streams[0].rest == s.skip(k).skip(1));
        assert(s.skip(k).skip(1) =~= s.skip(k + 1));
        assert(am.streams =~= st3.streams);
        assert(am.active =~= st3.active);
        assert(am == st3);
        lemma_twin_drain_first(s, w, dupe, e, k + 1, p1);
        assert(drain_stream(st, fl, 0) == drain_stream(st3, fl, 0));
        assert(ext_from(s, w, e, k) == ext_from(s, w, e, k + 1));
    }
}

/// Draining the second copy discards everything up to the window
/// boundary: each of its messages matches exactly its own copy in the
/// pending set, so nothing is admitted and no warning fires.
proof fn lemma_twin_drain_second(s: Seq<Message>, w: int, dupe: bool, e: int, kk: int, p1: int)
    requires
        ts_sorted(s),
        no_window_dups(s, w),
        w >= 0,
        0 <= e < s.len(),
        e <= p1 <= kk <= s.len(),
        e < kk,
        forall|i: int| e <= i < kk ==> (#[trigger] s[i]).ts as int <= s[e].ts as int + w,
        kk == s.len() || s[kk].ts as int > s[e].ts as int + w,
    ensures
        drain_stream(twin_fill(s, w, dupe, e, kk, p1, kk < s.len(), true), s[e].ts as int, 1)
            == twin_fill(s, w, dupe, e, kk, kk, kk < s.len(), kk < s.len()),
    decreases s.len() - p1,
{
    let fl = s[e].ts as int;
    let st = twin_fill(s, w, dupe, e, kk, p1, kk < s.len(), true);
    if p1 == s.len() {
        assert(kk == s.len());
        assert(st.streams[1].rest =~= Seq::<Message>::empty());
        let st2 = twin_fill(s, w, dupe, e, kk, kk, kk < s.len(), kk < s.len());
        assert(drain_stream(st, fl, 1) == EngineModel { active: st.active.update(1, false), ..st });
        assert(st.active.update(1, false) =~= st2.active);
        assert(st.streams =~= st2.streams);
    } else if p1 == kk {
        assert(st.streams[1].rest[0] == s[kk]);
        assert(head(st, 1).ts as int > fl + st.window);
        assert(drain_stream(st, fl, 1) == st);
        assert(st.active =~= twin_fill(s, w, dupe, e, kk, kk, kk < s.len(), kk < s.len()).active);
    } else {
        let m = s[p1];
        assert(st.streams[1].rest[0] == m);
        assert(head(st, 1) == m);
        assert(m.ts as int <= fl + w);
        // Exactly its own copy in the pending set matches it.
        let idx = p1 - e;
        assert(st.pending[idx] == m);
        assert(crate::message::dup_match(st.pending[idx], m));
        assert forall|q: int| 0 <= q < st.pending.len() && q != idx implies
            !crate::message::dup_match(#[trigger] st.pending[q], m) by {
            assert(st.pending[q] == s[e + q]);
            if e + q < p1 {
                assert(m.ts as int <= s[e + q].ts as int + w);
            } else {
                assert(s[e + q].ts as int <= s[e].ts as int + w);
                assert(s[e + q].ts as int <= m.ts as int + w);
                assert(crate::message::dup_match(s[p1], s[e + q])
                    == crate::message::dup_match(s[e + q], s[p1]));
            }
        }
        lemma_match_count_one(st.pending, m, idx, st.pending.len() as int);
        assert(match_count(st.pending, m) == 1);
        let am = admit_message(st, 1);
        assert(am.pending == st.pending && am.warnings == st.warnings);
        let st3 = twin_fill(s, w, dupe, e, kk, p1 + 1, kk < s.len(), true);
        assert(am.streams[1].rest == s.skip(p1).skip(1));
        assert(s.skip(p1).skip(1) =~= s.skip(p1 + 1));
        assert(am.streams =~= st3.streams);
        assert(am.active =~= st3.active);
        assert(am == st3);
        lemma_twin_drain_second(s, w, dupe, e, kk, p1 + 1);
        assert(drain_stream(st, fl, 1) == drain_stream(st3, fl, 1));
    }
}

/// The twin run from any of its reachable states commits exactly the
/// remaining messages of the stream, in order.
proof fn lemma_twin_run(s: Seq<Message>, w: int, dupe: bool, e: int, b: int)
    requires
        ts_sorted(s),
        no_window_dups(s, w),
        w >= 0,
        0 <= e <= b <= s.len(),
        e == b || e < s.len(),
        forall|i: int| e <= i < b ==> (#[trigger] s[i]).ts as int <= s[e].ts as int + w,
    ensures
        run(twin_state(s, w, dupe, e, b)).emitted == s,
        !run(twin_state(s, w, dupe, e, b)).aborted,
    decreases s.len() - e, 1int,
{
    let st = twin_state(s, w, dupe, e, b);
    assert(wf(st));
    assert(forall|i: int| !at_failure(st, i));
    assert(!any_failure(st));
    if e == b {
        // The pending set is empty: refill.
        if e == s.len() {
            // Everything is committed and both copies are done.
            let sd = drop_ended(st);
            assert(st.streams[0].rest =~= Seq::<Message>::empty());
            assert(!at_eos(st, 0) && !at_eos(st, 1));
            assert(sd.active =~= st.active);
            assert(sd == st);
            assert(!has_head(st, 0) && !has_head(st, 1));
            assert(best_from(st, 2, Option::None::<int>) == Option::None::<int>);
            assert(best_from(st, 1, Option::None::<int>) == Option::None::<int>);
            assert(best_head(st) == Option::None::<int>);
            assert(run(st) == st);
            assert(st.emitted =~= s);
        } else {
            // Take the head of the first copy into the pending set.
            let sd = drop_ended(st);
            assert(st.streams[0].rest[0] == s[e]);
            assert(!at_eos(st, 0) && !at_eos(st, 1));
            assert(sd.active =~= st.active);
            assert(sd == st);
            assert(has_head(st, 0) && has_head(st, 1));
            assert(head(st, 0) == s[e] && head(st, 1) == s[e]);
            assert(best_from(st, 2, Option::Some(0int)) == Option::Some(0int));
            assert(better_choice(st, Option::Some(0int), 1) == Option::Some(0int));
            assert(best_from(st, 1, Option::Some(0int)) == Option::Some(0int));
            assert(better_choice(st, Option::None, 0) == Option::Some(0int));
            assert(best_head(st) == Option::Some(0int));
            let sc = consume_first(st, 0);
            assert(run(st) == run(sc));
            let sf = twin_fill(s, w, dupe, e, e + 1, e, true, true);
            assert(sc.streams[0].rest == s.skip(b).skip(1));
            assert(s.skip(b).skip(1) =~= s.skip(e + 1));
            assert(sc.streams =~= sf.streams);
            assert(sc.active =~= sf.active);
            assert(sc.pending =~= sf.pending);
            assert(sc == sf);
            lemma_twin_sweep_commit(s, w, dupe, e, e + 1, e);
        }
    } else {
        // The pending set is non-empty: one pass, then a commit.
        let sf = twin_fill(s, w, dupe, e, b, b, b < s.len(), b < s.len());
        assert(st.streams =~= sf.streams);
        assert(st.active =~= sf.active);
        assert(st == sf);
        if b < s.len() {
            lemma_twin_sweep_commit(s, w, dupe, e, b, b);
        } else {
            // Both copies are already done and inactive: the pass moves
            // nothing and the front commits.
            let fl = s[e].ts as int;
            assert(st.pending[0] == s[e]);
            assert(drain_stream(st, fl, 0) == st);
            assert(drain_stream(st, fl, 1) == st);
            assert(sweep(st, fl, 0, 2) == sweep(st, fl, 1, 2));
            assert(sweep(st, fl, 1, 2) == sweep(st, fl, 2, 2));
            assert(sweep(st, fl, 2, 2) == st);
            let cf = commit_front(st);
            assert(forall|i: int| !has_head(st, i));
            assert(commit_guard(st, st.pending[0]));
            let nxt = twin_state(s, w, dupe, e + 1, b);
            assert(cf.pending =~= nxt.pending);
            assert(cf.emitted =~= nxt.emitted);
            assert(cf == nxt);
            lemma_remaining_same(st, cf, 0);
            lemma_remaining_same(st, sweep(st, fl, 0, 2), 0);
            lemma_twin_run(s, w, dupe, e + 1, b);
            assert(run(st) == run(cf));
        }
    }
}

/// From a post-refill or post-commit pass entry, the pass fills to the
/// window boundary, the copy discards the same span, and the front
/// commits, landing in the next twin state.
proof fn lemma_twin_sweep_commit(s: Seq<Message>, w: int, dupe: bool, e: int, k: int, p1: int)
    requires
        ts_sorted(s),
        no_window_dups(s, w),
        w >= 0,
        0 <= e < k <= s.len(),
        e <= p1 <= k,
        e < s.len(),
        forall|i: int| e <= i < k ==> (#[trigger] s[i]).ts as int <= s[e].ts as int + w,
    ensures
        run(twin_fill(s, w, dupe, e, k, p1, true, true)).emitted == s,
        !run(twin_fill(s, w, dupe, e, k, p1, true, true)).aborted,
    decreases s.len() - e, 0int,
{
    let fl = s[e].ts as int;
    let st = twin_fill(s, w, dupe, e, k, p1, true, true);
    assert(wf(st));
    assert(st.pending[0] == s[e]);
    assert(st.pending.len() > 0);
    let kk = ext_from(s, w, e, k);
    lemma_ext_props(s, w, e, k);
    lemma_twin_drain_first(s, w, dupe, e, k, p1);
    let st1 = twin_fill(s, w, dupe, e, kk, p1, kk < s.len(), true);
    assert(drain_stream(st, fl, 0) == st1);
    lemma_twin_drain_second(s, w, dupe, e, kk, p1);
    let st2 = twin_fill(s, w, dupe, e, kk, kk, kk < s.len(), kk < s.len());
    assert(drain_stream(st1, fl, 1) == st2);
    assert(sweep(st, fl, 0, 2) == sweep(st1, fl, 1, 2));
    assert(sweep(st1, fl, 1, 2) == sweep(st2, fl, 2, 2));
    assert(sweep(st2, fl, 2, 2) == st2);
    assert(run(st) == run(commit_front(st2))) by {
        assert(!st2.aborted);
    }
    let cf = commit_front(st2);
    assert forall|i: int| #[trigger] has_head(st2, i) implies head(st2, i).ts as int > fl
        + st2.window by {
        assert(kk < s.len());
        assert(st2.streams[i].rest[0] == s[kk]);
    }
    assert(commit_guard(st2, st2.pending[0]));
    let nxt = twin_state(s, w, dupe, e + 1, kk);
    assert(cf.pending == st2.pending.skip(1));
    assert(st2.pending.skip(1) =~= nxt.pending);
    assert(cf.emitted == st2.emitted.push(s[e]));
    assert(st2.emitted.push(s[e]) =~= nxt.emitted);
    assert(cf == nxt);
    assert forall|i: int| e + 1 <= i < kk implies (#[trigger] s[i]).ts as int <= s[e + 1].ts as int
        + w by {
        assert(s[e].ts <= s[e + 1].ts);
        assert(s[i].ts as int <= s[e].ts as int + w);
    }
    lemma_twin_run(s, w, dupe, e + 1, kk);
    assert(run(cf).emitted == s && !run(cf).aborted);
}

/// Idempotence of single-source merge: a stream merged with its own copy
/// comes out unchanged, for any window — provided the stream itself does
/// not repeat a message within one window, for then the copies' repeats
/// could not be told from the stream's own.
pub proof fn lemma_self_merge_idempotent(s: Seq<Message>, w: int, dupe_warning: bool)
    requires
        ts_sorted(s),
        no_window_dups(s, w),
        w >= 0,
    ensures
        run(init_model(
            seq![StreamModel { rest: s, failed: false }, StreamModel { rest: s, failed: false }],
            w,
            dupe_warning,
        )).emitted == s,
        !run(init_model(
            seq![StreamModel { rest: s, failed: false }, StreamModel { rest: s, failed: false }],
            w,
            dupe_warning,
        )).aborted,
{
    let s0 = init_model(
        seq![StreamModel { rest: s, failed: false }, StreamModel { rest: s, failed: false }],
        w,
        dupe_warning,
    );
    if s.len() == 0 {
        assert(wf(s0));
        assert(forall|i: int| !at_failure(s0, i));
        assert(!any_failure(s0));
        let sd = drop_ended(s0);
        assert(!has_head(sd, 0) && !has_head(sd, 1));
        assert(best_from(sd, 2, Option::None::<int>) == Option::None::<int>);
        assert(best_from(sd, 1, Option::None::<int>) == Option::None::<int>);
        assert(best_head(sd) == Option::None::<int>);
        assert(run(s0) == sd);
        assert(sd.emitted =~= s);
    } else {
        let tw = twin_state(s, w, dupe_warning, 0, 0);
        assert(s.skip(0) =~= s);
        assert(s0.streams =~= tw.streams);
        assert(s0.active =~= tw.active);
        assert(s0.pending =~= tw.pending);
        assert(s0.emitted =~= tw.emitted);
        assert(s0.warnings =~= tw.warnings);
        assert(s0 == tw);
        lemma_twin_run(s, w, dupe_warning, 0, 0);
    }
}

/// Two refill-ready states that differ only in the active flags of empty,
/// clean streams run identically: the first refill drops such streams
/// either way.
proof fn lemma_run_normalize(sx: EngineModel, sy: EngineModel)
    requires
        wf(sx),
        wf(sy),
        sx.streams == sy.streams,
        sx.pending == sy.pending,
        sx.pending.len() == 0,
        sx.emitted == sy.emitted,
        sx.warnings == sy.warnings,
        sx.window == sy.window,
        sx.dupe_warning == sy.dupe_warning,
        !sx.aborted,
        !sy.aborted,
        sx.committed_safely == sy.committed_safely,
        sx.active.len() == sy.active.len(),
        forall|i: int| 0 <= i < sx.streams.len() ==> !(#[trigger] sx.streams[i]).failed,
        forall|i: int| 0 <= i < sx.streams.len() && (#[trigger] sx.streams[i]).rest.len() > 0
            ==> sx.active[i] == sy.active[i],
    ensures
        run(sx) == run(sy),
{
    assert(forall|i: int| !at_failure(sx, i) && !at_failure(sy, i));
    assert(!any_failure(sx) && !any_failure(sy));
    let dx = drop_ended(sx);
    let dy = drop_ended(sy);
    assert(dx.active =~= dy.active);
    assert(dx == dy);
    match best_head(dx) {
        Option::None => {
            assert(run(sx) == dx && run(sy) == dy);
        },
        Option::Some(j) => {
            assert(best_head(drop_ended(sx)) == Option::Some(j));
            assert(best_head(drop_ended(sy)) == Option::Some(j));
            lemma_best_some_has_head(dx, 0, Option::None);
            assert(has_head(dx, j));
            assert(wf(consume_first(dx, j)) && wf(consume_first(dy, j)));
            assert(consume_first(drop_ended(sx), j) == consume_first(drop_ended(sy), j));
            assert(run(sx) == run(consume_first(dx, j)));
            assert(run(sy) == run(consume_first(dy, j)));
        },
    }
}

/// The quiet gap of the fast-forward law: everything not covered by the
/// first stream's emitted prefix lies strictly more than one window past
/// every message of that prefix.
pub open spec fn gap_ok(s0: Seq<Message>, s1r: Seq<Message>, w: int, p: int) -> bool {
    &&& forall|i: int, j: int| 0 <= i < p && p <= j < s0.len() ==> (#[trigger] s0[j]).ts as int
        > (#[trigger] s0[i]).ts as int + w
    &&& forall|i: int, j: int| 0 <= i < p && 0 <= j < s1r.len() ==> (#[trigger] s1r[j]).ts as int
        > (#[trigger] s0[i]).ts as int + w
}

/// A state of the prefix phase: `e` prefix messages committed, the first
/// stream read to `b`, the second untouched.
pub open spec fn ffp_state(s0: Seq<Message>, s1r: Seq<Message>, w: int, dupe: bool, e: int,
    b: int) -> EngineModel {
    EngineModel {
        streams: seq![
            StreamModel { rest: s0.skip(b), failed: false },
            StreamModel { rest: s1r, failed: false },
        ],
        active: seq![b < s0.len(), s1r.len() > 0],
        pending: s0.subrange(e, b),
        emitted: s0.take(e),
        warnings: Seq::empty(),
        window: w,
        dupe_warning: dupe,
        aborted: false,
        committed_safely: true,
    }
}

spec fn ffp_fill(s0: Seq<Message>, s1r: Seq<Message>, w: int, dupe: bool, e: int, k: int,
    a0: bool) -> EngineModel {
    EngineModel {
        streams: seq![
            StreamModel { rest: s0.skip(k), failed: false },
            StreamModel { rest: s1r, failed: false },
        ],
        active: seq![a0, s1r.len() > 0],
        pending: s0.subrange(e, k),
        emitted: s0.take(e),
        warnings: Seq::empty(),
        window: w,
        dupe_warning: dupe,
        aborted: false,
        committed_safely: true,
    }
}

/// During the prefix phase the first stream's drain admits prefix
/// messages up to the window boundary, which never passes the prefix end.
proof fn lemma_ffp_drain_first(s0: Seq<Message>, s1r: Seq<Message>, w: int, dupe: bool, p: int,
    e: int, k: int)
    requires
        ts_sorted(s0),
        no_window_dups(s0.take(p), w),
        gap_ok(s0, s1r, w, p),
        w >= 0,
        0 <= e < k <= p <= s0.len(),
        forall|i: int| e <= i < k ==> (#[trigger] s0[i]).ts as int <= s0[e].ts as int + w,
    ensures
        ext_from(s0, w, e, k) <= p,
        drain_stream(ffp_fill(s0, s1r, w, dupe, e, k, true), s0[e].ts as int, 0) == ffp_fill(
            s0, s1r, w, dupe, e, ext_from(s0, w, e, k), ext_from(s0, w, e, k) < s0.len()),
    decreases s0.len() - k,
{
    let fl = s0[e].ts as int;
    let st = ffp_fill(s0, s1r, w, dupe, e, k, true);
    lemma_ext_props(s0, w, e, k);
    assert(ext_from(s0, w, e, k) <= p) by {
        if ext_from(s0, w, e, k) > p {
            assert(s0[p].ts as int <= s0[e].ts as int + w);
            assert(s0[p].ts as int > s0[e].ts as int + w);
        }
    }
    if k == s0.len() {
        assert(st.streams[0].rest =~= Seq::<Message>::empty());
        let st2 = ffp_fill(s0, s1r, w, dupe, e, k, false);
        assert(drain_stream(st, fl, 0) == EngineModel { active: st.active.update(0, false), ..st });
        assert(st.active.update(0, false) =~= st2.active);
        assert(ext_from(s0, w, e, k) == k);
    } else if s0[k].ts as int > fl + w {
        assert(st.streams[0].rest[0] == s0[k]);
        assert(head(st, 0).ts as int > fl + st.window);
        assert(drain_stream(st, fl, 0) == st);
        assert(ext_from(s0, w, e, k) == k);
    } else {
        let m = s0[k];
        assert(k < p) by {
            if k >= p {
                assert(s0[k].ts as int > s0[e].ts as int + w);
            }
        }
        assert(st.streams[0].rest[0] == m);
        assert(head(st, 0) == m);
        assert forall|q: int| 0 <= q < st.pending.len() implies !crate::message::dup_match(
            #[trigger] st.pending[q], m) by {
            assert(st.pending[q] == s0[e + q]);
            assert(s0.take(p)[e + q] == s0[e + q] && s0.take(p)[k] == s0[k]);
            assert(s0[e].ts <= s0[e + q].ts);
            assert(m.ts as int <= s0[e + q].ts as int + w);
        }
        lemma_match_count_zero(st.pending, m, st.pending.len() as int);
        assert(match_count(st.pending, m) == 0);
        assert forall|q: int| 0 <= q < st.pending.len() implies (#[trigger] st.pending[q]).ts
            <= m.ts by {
            assert(st.pending[q] == s0[e + q]);
        }
        lemma_insert_index_all_le(st.pending, m, 0);
        let am = admit_message(st, 0);
        assert(am.pending == pend_insert(st.pending, m));
        assert(pend_insert(st.pending, m) =~= s0.subrange(e, k + 1));
        let st3 = ffp_fill(s0, s1r, w, dupe, e, k + 1, true);
        assert(am.streams[0].rest == s0.skip(k).skip(1));
        assert(s0.skip(k).skip(1) =~= s0.skip(k + 1));
        assert(am.streams =~= st3.streams);
        assert(am.active =~= st3.active);
        assert(am == st3);
        lemma_ffp_drain_first(s0, s1r, w, dupe, p, e, k + 1);
        assert(drain_stream(st, fl, 0) == drain_stream(st3, fl, 0));
        assert(ext_from(s0, w, e, k) == ext_from(s0, w, e, k + 1));
    }
}

/// The prefix-phase run commits the rest of the prefix and then continues
/// exactly as a fresh merge of what remains.
proof fn lemma_ffp_run(s0: Seq<Message>, s1r: Seq<Message>, w: int, dupe: bool, p: int, e: int,
    b: int)
    requires
        ts_sorted(s0),
        no_window_dups(s0.take(p), w),
        gap_ok(s0, s1r, w, p),
        w >= 0,
        0 <= e <= b <= p <= s0.len(),
        e == b || e < p,
        forall|i: int| e <= i < b ==> (#[trigger] s0[i]).ts as int <= s0[e].ts as int + w,
    ensures
        ({
            let tr = run(init_model(
                seq![
                    StreamModel { rest: s0.skip(p), failed: false },
                    StreamModel { rest: s1r, failed: false },
                ],
                w,
                dupe,
            ));
            run(ffp_state(s0, s1r, w, dupe, e, b)) == EngineModel {
                emitted: s0.take(p) + tr.emitted,
                ..tr
            }
        }),
    decreases p - e, 1int,
{
    let st = ffp_state(s0, s1r, w, dupe, e, b);
    let ti = init_model(
        seq![
            StreamModel { rest: s0.skip(p), failed: false },
            StreamModel { rest: s1r, failed: false },
        ],
        w,
        dupe,
    );
    let tr = run(ti);
    assert(wf(st));
    assert(forall|i: int| !at_failure(st, i));
    assert(!any_failure(st));
    if e == b {
        if e == p {
            // The prefix is fully committed: normalize the active flags and
            // strip the output to land on the fresh tail run.
            let stripped = EngineModel { emitted: Seq::empty(), ..st };
            lemma_run_emitted_frame(st);
            assert(wf(ti) && wf(stripped));
            assert(ti.active =~= seq![true, true]);
            assert(st.pending =~= Seq::<Message>::empty());
            assert(stripped.streams == ti.streams);
            assert(forall|i: int| 0 <= i < stripped.streams.len()
                ==> !(#[trigger] stripped.streams[i]).failed);
            lemma_run_normalize(stripped, ti);
            assert(run(st) == EngineModel { emitted: st.emitted + run(stripped).emitted,
                ..run(stripped) });
            assert(st.emitted + tr.emitted =~= s0.take(p) + tr.emitted);
        } else {
            // Refill from the first stream: its head precedes everything the
            // second stream still holds.
            let sd = drop_ended(st);
            assert(st.streams[0].rest[0] == s0[e]);
            assert(!at_eos(st, 0) && !at_eos(st, 1));
            assert(sd.active =~= st.active);
            assert(sd == st);
            assert(has_head(st, 0));
            assert(head(st, 0) == s0[e]);
            assert(better_choice(st, Option::Some(0int), 1) == Option::Some(0int)) by {
                if has_head(st, 1) {
                    assert(head(st, 1) == s1r[0]);
                    assert(s1r[0].ts as int > s0[e].ts as int + w);
                }
            }
            assert(best_from(st, 2, Option::Some(0int)) == Option::Some(0int));
            assert(best_from(st, 1, Option::Some(0int)) == Option::Some(0int));
            assert(better_choice(st, Option::None, 0) == Option::Some(0int));
            assert(best_head(st) == Option::Some(0int));
            let sc = consume_first(st, 0);
            assert(run(st) == run(sc));
            let sf = ffp_fill(s0, s1r, w, dupe, e, e + 1, true);
            assert(sc.streams[0].rest == s0.skip(b).skip(1));
            assert(s0.skip(b).skip(1) =~= s0.skip(e + 1));
            assert(sc.streams =~= sf.streams);
            assert(sc.active =~= sf.active);
            assert(sc.pending =~= sf.pending);
            assert(sc == sf);
            lemma_ffp_sweep_commit(s0, s1r, w, dupe, p, e, e + 1);
        }
    } else {
        if b == p {
            // Nothing left to read inside the window: the pass moves
            // nothing and the front commits.
            let fl = s0[e].ts as int;
            assert(st.pending[0] == s0[e]);
            assert(drain_stream(st, fl, 0) == st) by {
                if b < s0.len() {
                    assert(st.streams[0].rest[0] == s0[b]);
                    assert(s0[b].ts as int > fl + w);
                } else {
                    assert(!st.active[0]);
                }
            }
            assert(drain_stream(st, fl, 1) == st) by {
                if s1r.len() > 0 {
                    assert(st.streams[1].rest[0] == s1r[0]);
                    assert(s1r[0].ts as int > fl + w);
                } else {
                    assert(!st.active[1]);
                }
            }
            assert(sweep(st, fl, 0, 2) == sweep(st, fl, 1, 2));
            assert(sweep(st, fl, 1, 2) == sweep(st, fl, 2, 2));
            assert(sweep(st, fl, 2, 2) == st);
            let cf = commit_front(st);
            assert forall|i: int| #[trigger] has_head(st, i) implies head(st, i).ts as int > fl
                + st.window by {
                if i == 0 {
                    assert(head(st, 0) == s0[b]);
                } else {
                    assert(i == 1);
                    assert(head(st, 1) == s1r[0]);
                }
            }
            assert(commit_guard(st, st.pending[0]));
            let nxt = ffp_state(s0, s1r, w, dupe, e + 1, b);
            assert(cf.pending =~= nxt.pending);
            assert(cf.emitted =~= nxt.emitted);
            assert(cf == nxt);
            lemma_ffp_run(s0, s1r, w, dupe, p, e + 1, b);
            assert(run(st) == run(cf));
        } else {
            let sf = ffp_fill(s0, s1r, w, dupe, e, b, true);
            assert(st.streams =~= sf.streams);
            assert(st.active =~= sf.active);
            assert(st == sf);
            lemma_ffp_sweep_commit(s0, s1r, w, dupe, p, e, b);
        }
    }
}

/// One pass of the prefix phase: the first stream fills to the window
/// boundary, the second stays put, and the front commits.
proof fn lemma_ffp_sweep_commit(s0: Seq<Message>, s1r: Seq<Message>, w: int, dupe: bool, p: int,
    e: int, k: int)
    requires
        ts_sorted(s0),
        no_window_dups(s0.take(p), w),
        gap_ok(s0, s1r, w, p),
        w >= 0,
        0 <= e < k <= p <= s0.len(),
        e < p,
        forall|i: int| e <= i < k ==> (#[trigger] s0[i]).ts as int <= s0[e].ts as int + w,
    ensures
        ({
            let tr = run(init_model(
                seq![
                    StreamModel { rest: s0.skip(p), failed: false },
                    StreamModel { rest: s1r, failed: false },
                ],
                w,
                dupe,
            ));
            run(ffp_fill(s0, s1r, w, dupe, e, k, true)) == EngineModel {
                emitted: s0.take(p) + tr.emitted,
                ..tr
            }
        }),
    decreases p - e, 0int,
{
    let fl = s0[e].ts as int;
    let st = ffp_fill(s0, s1r, w, dupe, e, k, true);
    assert(wf(st));
    assert(st.pending[0] == s0[e]);
    assert(st.pending.len() > 0);
    let kk = ext_from(s0, w, e, k);
    lemma_ext_props(s0, w, e, k);
    lemma_ffp_drain_first(s0, s1r, w, dupe, p, e, k);
    let st1 = ffp_fill(s0, s1r, w, dupe, e, kk, kk < s0.len());
    assert(drain_stream(st, fl, 0) == st1);
    assert(drain_stream(st1, fl, 1) == st1) by {
        if s1r.len() > 0 {
            assert(st1.streams[1].rest[0] == s1r[0]);
            assert(s1r[0].ts as int > fl + w);
        } else {
            assert(!st1.active[1]);
        }
    }
    assert(sweep(st, fl, 0, 2) == sweep(st1, fl, 1, 2));
    assert(sweep(st1, fl, 1, 2) == sweep(st1, fl, 2, 2));
    assert(sweep(st1, fl, 2, 2) == st1);
    assert(run(st) == run(commit_front(st1))) by {
        assert(!st1.aborted);
    }
    let cf = commit_front(st1);
    assert forall|i: int| #[trigger] has_head(st1, i) implies head(st1, i).ts as int > fl
        + st1.window by {
        if i == 0 {
            assert(kk < s0.len());
            assert(head(st1, 0) == s0[kk]);
            if kk < p {
                assert(s0[kk].ts as int > fl + w);
            } else {
                assert(s0[kk].ts as int > s0[e].ts as int + w);
            }
        } else {
            assert(i == 1);
            assert(head(st1, 1) == s1r[0]);
        }
    }
    assert(commit_guard(st1, st1.pending[0]));
    let nxt = ffp_state(s0, s1r, w, dupe, e + 1, kk);
    assert(cf.pending == st1.pending.skip(1));
    assert(st1.pending.skip(1) =~= nxt.pending);
    assert(cf.emitted == st1.emitted.push(s0[e]));
    assert(st1.emitted.push(s0[e]) =~= nxt.emitted);
    assert(cf == nxt);
    assert forall|i: int| e + 1 <= i < kk implies (#[trigger] s0[i]).ts as int
        <= s0[e + 1].ts as int + w by {
        assert(s0[e].ts <= s0[e + 1].ts);
        assert(s0[i].ts as int <= s0[e].ts as int + w);
    }
    lemma_ffp_run(s0, s1r, w, dupe, p, e + 1, kk);
}

/// Fast-forward prefix equivalence, under the mode's documented trust
/// assumptions made precise: the first stream's prefix up to the cut has
/// no in-window duplicates of its own, and everything left after the cut —
/// in either stream — lies strictly more than one window past the whole
/// prefix.  Then the plain merge of the first stream with the trimmed
/// second stream equals that prefix followed by the merge of the leftover
/// streams, which is exactly what fast-forward followed by the merge
/// produces.
pub proof fn lemma_fast_forward_equivalence(s0: Seq<Message>, s1r: Seq<Message>, w: int,
    dupe_warning: bool, p: int)
    requires
        ts_sorted(s0),
        w >= 0,
        0 <= p <= s0.len(),
        no_window_dups(s0.take(p), w),
        gap_ok(s0, s1r, w, p),
    ensures
        ({
            let tr = run(init_model(
                seq![
                    StreamModel { rest: s0.skip(p), failed: false },
                    StreamModel { rest: s1r, failed: false },
                ],
                w,
                dupe_warning,
            ));
            run(init_model(
                seq![
                    StreamModel { rest: s0, failed: false },
                    StreamModel { rest: s1r, failed: false },
                ],
                w,
                dupe_warning,
            )) == EngineModel { emitted: s0.take(p) + tr.emitted, ..tr }
        }),
{
    let full = init_model(
        seq![
            StreamModel { rest: s0, failed: false },
            StreamModel { rest: s1r, failed: false },
        ],
        w,
        dupe_warning,
    );
    let ti = init_model(
        seq![
            StreamModel { rest: s0.skip(p), failed: false },
            StreamModel { rest: s1r, failed: false },
        ],
        w,
        dupe_warning,
    );
    let tr = run(ti);
    assert(wf(full) && wf(ti));
    assert(full.active =~= seq![true, true]);
    if p == 0 {
        assert(s0.skip(0) =~= s0);
        assert(full == ti);
        assert(s0.take(0) + tr.emitted =~= tr.emitted);
        assert(EngineModel { emitted: s0.take(p) + tr.emitted, ..tr } == tr);
    } else {
        let st = ffp_state(s0, s1r, w, dupe_warning, 0, 0);
        assert(wf(st));
        assert(s0.skip(0) =~= s0);
        assert(full.streams =~= st.streams);
        assert(full.pending =~= st.pending);
        assert(full.emitted =~= st.emitted);
        assert(full.warnings =~= st.warnings);
        lemma_run_normalize(full, st);
        lemma_ffp_run(s0, s1r, w, dupe_warning, p, 0, 0);
    }
}

/// The two-stream state of the window-correctness law: one message in
/// each stream.
pub open spec fn pair_model(m1: Message, m2: Message) -> Seq<StreamModel> {
    seq![
        StreamModel { rest: seq![m1], failed: false },
        StreamModel { rest: seq![m2], failed: false },
    ]
}

/// Window correctness, merging half: two matching messages exactly one
/// window apart collapse to the earlier one.
pub proof fn lemma_window_merges(m1: Message, m2: Message, w: u64, dupe_warning: bool)
    requires
        crate::message::dup_match(m1, m2),
        m2.ts as int == m1.ts as int + w,
    ensures
        run(init_model(pair_model(m1, m2), w as int, dupe_warning)).emitted == seq![m1],
        !run(init_model(pair_model(m1, m2), w as int, dupe_warning)).aborted,
{
    let s0 = init_model(pair_model(m1, m2), w as int, dupe_warning);
    assert(wf(s0));
    assert(!at_failure(s0, 0) && !at_failure(s0, 1));
    assert(forall|i: int| !at_failure(s0, i));
    assert(!any_failure(s0));
    let sd = drop_ended(s0);
    assert(sd.active =~= s0.active);
    assert(sd == s0);
    assert(has_head(s0, 0) && has_head(s0, 1));
    assert(head(s0, 0) == m1 && head(s0, 1) == m2);
    assert(best_from(s0, 2, Option::Some(0int)) == Option::Some(0int));
    assert(better_choice(s0, Option::Some(0int), 1) == Option::Some(0int));
    assert(best_from(s0, 1, Option::Some(0int)) == Option::Some(0int));
    assert(better_choice(s0, Option::None, 0) == Option::Some(0int));
    assert(best_head(s0) == Option::Some(0int));
    let s2 = consume_first(s0, 0);
    assert(run(s0) == run(s2));
    // Admit-and-commit at floor m1.ts.
    let fl = m1.ts as int;
    assert(s2.pending == seq![m1]);
    assert(s2.pending[0] == m1);
    let s3 = drain_stream(s2, fl, 0);
    assert(s2.streams[0].rest =~= Seq::<Message>::empty());
    assert(s3 == EngineModel { active: s2.active.update(0, false), ..s2 });
    let s4 = admit_message(s3, 1);
    assert(head(s3, 1) == m2);
    assert(m2.ts <= fl + s3.window);
    assert(match_count_upto(s3.pending, m2, 0) == 0);
    assert(match_count(s3.pending, m2) == 1);
    assert(s4.pending == s3.pending && s4.emitted == s3.emitted && s4.warnings == s3.warnings);
    let s5 = drain_stream(s4, fl, 1);
    assert(s4.streams[1].rest =~= Seq::<Message>::empty());
    assert(s5 == EngineModel { active: s4.active.update(1, false), ..s4 });
    assert(drain_stream(s3, fl, 1) == s5);
    assert(sweep(s2, fl, 0, 2) == sweep(s3, fl, 1, 2));
    assert(sweep(s3, fl, 1, 2) == sweep(s5, fl, 2, 2));
    assert(sweep(s5, fl, 2, 2) == s5);
    let s6 = commit_front(s5);
    assert(s6.emitted =~= seq![m1]);
    assert(s6.pending =~= Seq::<Message>::empty());
    assert(run(s2) == run(s6));
    // Terminal refill: both streams are done.
    assert(forall|i: int| !at_failure(s6, i));
    assert(!any_failure(s6));
    let s7 = drop_ended(s6);
    assert(s7.active =~= s6.active);
    assert(s7 == s6);
    assert(!has_head(s6, 0) && !has_head(s6, 1));
    assert(best_from(s6, 2, Option::None::<int>) == Option::None::<int>);
    assert(best_from(s6, 1, Option::None::<int>) == Option::None::<int>);
    assert(best_head(s6) == Option::None::<int>);
    assert(run(s6) == s6);
}

/// Window correctness, separating half: with any narrower window the same
/// two messages both survive, in order.
pub proof fn lemma_window_separates(m1: Message, m2: Message, w: u64, dupe_warning: bool)
    requires
        crate::message::dup_match(m1, m2),
        m2.ts as int == m1.ts as int + w,
        w >= 1,
    ensures
        run(init_model(pair_model(m1, m2), w as int - 1, dupe_warning)).emitted == seq![m1, m2],
        !run(init_model(pair_model(m1, m2), w as int - 1, dupe_warning)).aborted,
{
    let s0 = init_model(pair_model(m1, m2), w as int - 1, dupe_warning);
    assert(wf(s0));
    assert(forall|i: int| !at_failure(s0, i));
    assert(!any_failure(s0));
    let sd = drop_ended(s0);
    assert(sd.active =~= s0.active);
    assert(sd == s0);
    assert(has_head(s0, 0) && has_head(s0, 1));
    assert(head(s0, 0) == m1 && head(s0, 1) == m2);
    assert(best_from(s0, 2, Option::Some(0int)) == Option::Some(0int));
    assert(better_choice(s0, Option::Some(0int), 1) == Option::Some(0int));
    assert(best_from(s0, 1, Option::Some(0int)) == Option::Some(0int));
    assert(better_choice(s0, Option::None, 0) == Option::Some(0int));
    assert(best_head(s0) == Option::Some(0int));
    let s2 = consume_first(s0, 0);
    assert(run(s0) == run(s2));
    // First admit-and-commit: the second stream is beyond the window.
    let fl = m1.ts as int;
    assert(s2.pending == seq![m1]);
    let s3 = drain_stream(s2, fl, 0);
    assert(s2.streams[0].rest =~= Seq::<Message>::empty());
    assert(s3 == EngineModel { active: s2.active.update(0, false), ..s2 });
    assert(head(s3, 1) == m2);
    assert(m2.ts > fl + s3.window);
    assert(drain_stream(s3, fl, 1) == s3);
    assert(sweep(s2, fl, 0, 2) == sweep(s3, fl, 1, 2));
    assert(sweep(s3, fl, 1, 2) == sweep(s3, fl, 2, 2));
    assert(sweep(s3, fl, 2, 2) == s3);
    let s6 = commit_front(s3);
    assert(s6.emitted =~= seq![m1]);
    assert(s6.pending =~= Seq::<Message>::empty());
    assert(run(s2) == run(s6));
    // Second refill takes the second stream's message.
    assert(forall|i: int| !at_failure(s6, i));
    assert(!any_failure(s6));
    let s7 = drop_ended(s6);
    assert(s7.active =~= s6.active);
    assert(s7 == s6);
    assert(!has_head(s6, 0) && has_head(s6, 1));
    assert(head(s6, 1) == m2);
    assert(best_from(s6, 2, Option::Some(1int)) == Option::Some(1int));
    assert(better_choice(s6, Option::None, 1) == Option::Some(1int));
    assert(best_from(s6, 1, Option::None::<int>) == Option::Some(1int));
    assert(better_choice(s6, Option::None, 0) == Option::None::<int>);
    assert(best_head(s6) == Option::Some(1int));
    let s8 = consume_first(s6, 1);
    assert(run(s6) == run(s8));
    // Second admit-and-commit: nothing is left to admit.
    let fl2 = m2.ts as int;
    assert(s8.pending == seq![m2]);
    let s9 = drain_stream(s8, fl2, 1);
    assert(s8.streams[1].rest =~= Seq::<Message>::empty());
    assert(s9 == EngineModel { active: s8.active.update(1, false), ..s8 });
    assert(drain_stream(s8, fl2, 0) == s8);
    assert(sweep(s8, fl2, 0, 2) == sweep(s8, fl2, 1, 2));
    assert(sweep(s8, fl2, 1, 2) == sweep(s9, fl2, 2, 2));
    assert(sweep(s9, fl2, 2, 2) == s9);
    let s10 = commit_front(s9);
    assert(s10.emitted =~= seq![m1, m2]);
    assert(s10.pending =~= Seq::<Message>::empty());
    assert(run(s8) == run(s10));
    // Terminal refill.
    assert(forall|i: int| !at_failure(s10, i));
    assert(!any_failure(s10));
    let s11 = drop_ended(s10);
    assert(s11.active =~= s10.active);
    assert(s11 == s10);
    assert(!has_head(s10, 0) && !has_head(s10, 1));
    assert(best_from(s10, 2, Option::None::<int>) == Option::None::<int>);
    assert(best_from(s10, 1, Option::None::<int>) == Option::None::<int>);
    assert(best_head(s10) == Option::None::<int>);
    assert(run(s10) == s10);
}

/// Commit-safety: over time-ordered streams, whenever the engine commits a
/// message, every stream still able to yield one is already strictly more
/// than the merge window past it — no later arrival can be its duplicate.
pub proof fn lemma_commit_safety(streams: Seq<StreamModel>, window: int, dupe_warning: bool)
    requires
        window >= 0,
        forall|i: int| 0 <= i < streams.len() ==> ts_sorted((#[trigger] streams[i]).rest),
    ensures
        run(init_model(streams, window, dupe_warning)).committed_safely,
{
    let s0 = init_model(streams, window, dupe_warning);
    assert(engine_inv(s0));
    lemma_run_inv(s0);
}

/// Total output order: over time-ordered streams the committed timestamps
/// are nondecreasing, whatever the window and however the run ends.
pub proof fn lemma_output_sorted(streams: Seq<StreamModel>, window: int, dupe_warning: bool)
    requires
        window >= 0,
        forall|i: int| 0 <= i < streams.len() ==> ts_sorted((#[trigger] streams[i]).rest),
    ensures
        ts_sorted(run(init_model(streams, window, dupe_warning)).emitted),
{
    let s0 = init_model(streams, window, dupe_warning);
    assert(engine_inv(s0));
    lemma_run_inv(s0);
}

} // verus!
