//! The executable windowed merge-deduplication engine, proved equal to the
//! model in `model`.

use vstd::prelude::*;
use crate::message::Message;
use crate::model::EngineModel;
use crate::model::StreamModel;
use crate::model::admit_message;
use crate::model::any_failure;
use crate::model::at_eos;
use crate::model::at_failure;
use crate::model::best_from;
use crate::model::best_head;
use crate::model::better_choice;
use crate::model::commit_front;
use crate::model::commit_guard;
use crate::model::consume_first;
use crate::model::drain_stream;
use crate::model::drop_ended;
use crate::model::has_head;
use crate::model::head;
use crate::model::init_model;
use crate::model::insert_index;
use crate::model::lemma_insert_index_bounds;
use crate::model::lemma_remaining_advance;
use crate::model::lemma_remaining_same;
use crate::model::lemma_sweep_measure;
use crate::model::measure;
use crate::model::match_count;
use crate::model::match_count_upto;
use crate::model::pend_insert;
use crate::model::run;
use crate::model::stream_count;
use crate::model::sweep;
use crate::model::wf;

verus! {

/// One fully decoded input stream: its messages in file order, and whether
/// decoding stopped at a malformed record rather than clean end-of-data.
pub struct DecodedStream {
    pub msgs: Vec<Message>,
    pub failed: bool,
}

/// A message that was discarded although more than one pending message
/// already matched it, together with that match count.
pub struct DupWarning {
    pub message: Message,
    pub count: usize,
}

/// What one tab's merge produced: the committed messages in output order,
/// the duplicate warnings, and whether a decode failure aborted the tab
/// (everything committed before the failure is kept).
pub struct MergeOutcome {
    pub emitted: Vec<Message>,
    pub warnings: Vec<DupWarning>,
    pub failed: bool,
}

pub open spec fn streams_view(ss: Seq<DecodedStream>) -> Seq<StreamModel> {
    Seq::new(ss.len(), |i: int| StreamModel { rest: ss[i].msgs@, failed: ss[i].failed })
}

pub open spec fn warnings_view(ws: Seq<DupWarning>) -> Seq<(Message, int)> {
    Seq::new(ws.len(), |i: int| (ws[i].message, ws[i].count as int))
}

/// One stream inside the engine: the unread messages in reverse order (so
/// the next message is last and can be taken in place), the failure flag,
/// and whether the stream is still in the active set.
struct Cursor {
    rev: Vec<Message>,
    failed: bool,
    active: bool,
}

spec fn cursor_stream(c: Cursor) -> StreamModel {
    StreamModel { rest: c.rev@.reverse(), failed: c.failed }
}

spec fn cursors_streams(cs: Seq<Cursor>) -> Seq<StreamModel> {
    Seq::new(cs.len(), |i: int| cursor_stream(cs[i]))
}

spec fn cursors_active(cs: Seq<Cursor>) -> Seq<bool> {
    Seq::new(cs.len(), |i: int| cs[i].active)
}

spec fn engine_state(
    cs: Seq<Cursor>,
    pending: Seq<Message>,
    emitted: Seq<Message>,
    warnings: Seq<(Message, int)>,
    window: int,
    dupe: bool,
    safe: bool,
) -> EngineModel {
    EngineModel {
        streams: cursors_streams(cs),
        active: cursors_active(cs),
        pending,
        emitted,
        warnings,
        window,
        dupe_warning: dupe,
        aborted: false,
        committed_safely: safe,
    }
}

proof fn lemma_reverse_parts(v: Seq<Message>)
    requires
        v.len() > 0,
    ensures
        v.reverse().len() == v.len(),
        v.reverse()[0] == v[v.len() - 1],
        v.reverse().skip(1) == v.drop_last().reverse(),
{
    assert(v.reverse().skip(1) =~= v.drop_last().reverse());
}

/// `best_from` only looks at heads, so states with the same streams and
/// the same peekable streams agree on it.
proof fn lemma_best_from_same(s: EngineModel, s2: EngineModel, i: int, b: Option<int>)
    requires
        s2.streams == s.streams,
        forall|j: int| has_head(s2, j) == has_head(s, j),
    ensures
        best_from(s2, i, b) == best_from(s, i, b),
    decreases stream_count(s) - i,
{
    if 0 <= i < stream_count(s) {
        assert(better_choice(s2, b, i) == better_choice(s, b, i));
        lemma_best_from_same(s, s2, i + 1, better_choice(s, b, i));
    }
}

fn reverse_vec(v: Vec<Message>) -> (r: Vec<Message>)
    ensures
        r@.reverse() == v@,
        r@.len() == v@.len(),
{
    let mut src = v;
    let ghost orig = src@;
    let mut out: Vec<Message> = Vec::new();
    while src.len() > 0
        invariant
            src@ + out@.reverse() == orig,
        decreases src.len(),
    {
        let x = src.pop().unwrap();
        out.push(x);
        proof {
            assert(src@ + out@.reverse() =~= orig);
        }
    }
    proof {
        assert(out@.reverse() =~= orig);
    }
    out
}

/// Whether a stream's next message may still be admitted against `floor`:
/// the stream is active, has a message, and that message is not beyond
/// `floor + window`.
fn cursor_admittable(c: &Cursor, floor: u32, window: u64) -> (r: bool)
    ensures
        r == (c.active && c.rev@.len() > 0 && c.rev@[c.rev@.len() - 1].ts as int
            <= floor as int + window as int),
{
    if !c.active {
        return false;
    }
    if c.rev.len() == 0 {
        return false;
    }
    let ts = c.rev[c.rev.len() - 1].ts;
    (ts as u128) <= (floor as u128) + (window as u128)
}

spec fn best_view(b: Option<(usize, u32)>) -> Option<int> {
    match b {
        Option::None => Option::None,
        Option::Some(p) => Option::Some(p.0 as int),
    }
}

/// Merge the given streams under `window`, deduplicating as the model
/// prescribes.  The outcome is exactly what the model's `run` computes on
/// the same streams: the committed messages in order, the duplicate
/// warnings in order, and whether a decode failure aborted the tab.
pub fn merge_streams(streams: Vec<DecodedStream>, window: u64, dupe_warning: bool) -> (r:
    MergeOutcome)
    ensures
        ({
            let fin = run(init_model(streams_view(streams@), window as int, dupe_warning));
            &&& r.emitted@ == fin.emitted
            &&& warnings_view(r.warnings@) == fin.warnings
            &&& r.failed == fin.aborted
        }),
{
    let ghost s0 = init_model(streams_view(streams@), window as int, dupe_warning);
    let mut rem = streams;
    let ghost orig = rem@;
    let mut cursors: Vec<Cursor> = Vec::new();
    while rem.len() > 0
        invariant
            cursors@.len() + rem@.len() == orig.len(),
            forall|j: int| 0 <= j < cursors@.len()
                ==> cursor_stream(#[trigger] cursors@[j]) == streams_view(orig)[j],
            forall|j: int| 0 <= j < cursors@.len() ==> (#[trigger] cursors@[j]).active,
            forall|k: int| #![auto] 0 <= k < rem@.len()
                ==> rem@[k] == orig[cursors@.len() + k],
        decreases rem.len(),
    {
        let ds = rem.remove(0);
        let rv = reverse_vec(ds.msgs);
        proof {
            assert(rv@.reverse() == ds.msgs@);
        }
        cursors.push(Cursor { rev: rv, failed: ds.failed, active: true });
    }
    let mut pending: Vec<Message> = Vec::new();
    let mut emitted: Vec<Message> = Vec::new();
    let mut warnings: Vec<DupWarning> = Vec::new();
    let ghost mut safe: bool = true;
    proof {
        assert(cursors@.len() == orig.len());
        assert(cursors_streams(cursors@) =~= streams_view(orig));
        assert(s0.active == Seq::new(streams_view(streams@).len(), |i: int| true));
        assert forall|j: int| 0 <= j < cursors@.len() implies cursors_active(cursors@)[j]
            == s0.active[j] by {
            assert(cursor_stream(cursors@[j]) == streams_view(orig)[j] && cursors@[j].active);
        }
        assert(cursors_active(cursors@) =~= s0.active);
        assert(warnings_view(warnings@) =~= Seq::<(Message, int)>::empty());
        assert(engine_state(cursors@, pending@, emitted@, warnings_view(warnings@),
            window as int, dupe_warning, safe) == s0);
    }
    let n = cursors.len();
    loop
        invariant
            n == cursors@.len(),
            s0 == init_model(streams_view(streams@), window as int, dupe_warning),
            run(engine_state(cursors@, pending@, emitted@, warnings_view(warnings@),
                window as int, dupe_warning, safe)) == run(s0),
        decreases measure(engine_state(cursors@, pending@, emitted@,
            warnings_view(warnings@), window as int, dupe_warning, safe)),
            (if pending@.len() == 0 { 1int } else { 0int }),
    {
        let ghost st = engine_state(cursors@, pending@, emitted@, warnings_view(warnings@),
            window as int, dupe_warning, safe);
        proof {
            assert(wf(st));
        }
        if pending.len() == 0 {
            // Refill.  First sweep for decode failures: any one aborts the tab.
            let mut i: usize = 0;
            while i < n
                invariant
                    i <= n,
                    n == cursors@.len(),
                    s0 == init_model(streams_view(streams@), window as int, dupe_warning),
                    st == engine_state(cursors@, pending@, emitted@,
                        warnings_view(warnings@), window as int, dupe_warning, safe),
                    pending@.len() == 0,
                    run(st) == run(s0),
                    forall|j: int| 0 <= j < i ==> !at_failure(st, j),
                decreases n - i,
            {
                let c = &cursors[i];
                if c.active && c.rev.len() == 0 && c.failed {
                    proof {
                        assert(st.streams[i as int].rest.len() == 0);
                        assert(at_failure(st, i as int));
                        assert(any_failure(st));
                        assert(run(st) == EngineModel { aborted: true, ..st });
                    }
                    return MergeOutcome { emitted, warnings, failed: true };
                }
                proof {
                    assert(!at_failure(st, i as int));
                }
                i += 1;
            }
            proof {
                assert(!any_failure(st));
            }
            // Drop exhausted streams and find the earliest head, ties to the
            // lowest stream index.
            let mut best: Option<(usize, u32)> = Option::None;
            let mut i2: usize = 0;
            while i2 < n
                invariant
                    i2 <= n,
                    n == cursors@.len(),
                    st.streams == cursors_streams(cursors@),
                    st.pending == pending@,
                    st.emitted == emitted@,
                    st.warnings == warnings_view(warnings@),
                    st.window == window as int,
                    st.dupe_warning == dupe_warning,
                    st.committed_safely == safe,
                    !st.aborted,
                    st.active.len() == n,
                    pending@.len() == 0,
                    run(st) == run(s0),
                    !any_failure(st),
                    forall|j: int| 0 <= j < i2
                        ==> #[trigger] cursors@[j].active == (st.active[j] && !at_eos(st, j)),
                    forall|j: int| i2 <= j < n ==> #[trigger] cursors@[j].active == st.active[j],
                    best_from(st, i2 as int, best_view(best)) == best_head(st),
                    best matches Option::Some(p)
                        ==> has_head(st, p.0 as int) && p.1 == head(st, p.0 as int).ts,
                decreases n - i2,
            {
                let c = &cursors[i2];
                if c.active && c.rev.len() == 0 {
                    let ghost prev = cursors@;
                    cursors[i2].active = false;
                    proof {
                        assert(cursors_streams(cursors@) =~= cursors_streams(prev));
                        assert(prev[i2 as int].rev@.len() == 0);
                        assert(st.streams[i2 as int].rest == prev[i2 as int].rev@.reverse());
                        assert(st.streams[i2 as int].rest.len() == 0);
                        assert(!at_failure(st, i2 as int));
                        assert(at_eos(st, i2 as int));
                        assert(better_choice(st, best_view(best), i2 as int)
                            == best_view(best));
                    }
                } else {
                    if c.active {
                        let ts = c.rev[c.rev.len() - 1].ts;
                        proof {
                            lemma_reverse_parts(c.rev@);
                            assert(has_head(st, i2 as int));
                            assert(head(st, i2 as int).ts == ts);
                        }
                        match best {
                            Option::None => {
                                best = Option::Some((i2, ts));
                            },
                            Option::Some(p) => {
                                if ts < p.1 {
                                    best = Option::Some((i2, ts));
                                }
                            },
                        }
                    } else {
                        proof {
                            assert(!has_head(st, i2 as int));
                            assert(better_choice(st, best_view(best), i2 as int)
                                == best_view(best));
                        }
                    }
                }
                i2 += 1;
            }
            let ghost std_ = drop_ended(st);
            proof {
                assert(cursors_active(cursors@) =~= std_.active);
                assert(cursors_streams(cursors@) =~= st.streams);
                assert(forall|j: int| has_head(std_, j) == has_head(st, j));
                lemma_best_from_same(st, std_, 0, Option::None);
                assert(best_head(std_) == best_head(st));
            }
            match best {
                Option::None => {
                    proof {
                        assert(best_head(st) == Option::None::<int>);
                        assert(run(st) == std_);
                        assert(std_.emitted == emitted@);
                        assert(std_.warnings == warnings_view(warnings@));
                        assert(!std_.aborted);
                    }
                    return MergeOutcome { emitted, warnings, failed: false };
                },
                Option::Some(p) => {
                    let bj = p.0;
                    let ghost prev = cursors@;
                    let m = cursors[bj].rev.pop().unwrap();
                    pending.push(m);
                    proof {
                        lemma_reverse_parts(prev[bj as int].rev@);
                        let st2 = consume_first(std_, bj as int);
                        assert(cursors_streams(cursors@) =~= st2.streams);
                        assert(cursors_active(cursors@) =~= st2.active);
                        assert(pending@ =~= st2.pending);
                        assert(engine_state(cursors@, pending@, emitted@,
                            warnings_view(warnings@), window as int, dupe_warning, safe)
                            == st2);
                        assert(run(st) == run(st2));
                        lemma_remaining_same(st, std_, 0);
                        lemma_remaining_advance(std_, st2, bj as int, 0);
                        assert(measure(st2) == measure(st));
                    }
                },
            }
        } else {
            // Admit-and-commit.
            let floor = pending[0].ts;
            let ghost fl = floor as int;
            let ghost stb = st;
            let mut i: usize = 0;
            proof {
                assert(sweep(stb, fl, 0, n as int) == sweep(st, fl, 0, n as int));
            }
            while i < n
                invariant
                    i <= n,
                    n == cursors@.len(),
                    pending@.len() > 0,
                    s0 == init_model(streams_view(streams@), window as int, dupe_warning),
                    run(stb) == run(s0),
                    wf(stb),
                    stb.pending.len() > 0,
                    fl == floor as int,
                    fl == stb.pending[0].ts,
                    stream_count(stb) == n,
                    sweep(stb, fl, 0, n as int) == sweep(
                        engine_state(cursors@, pending@, emitted@, warnings_view(warnings@),
                            window as int, dupe_warning, safe), fl, i as int, n as int),
                decreases n - i,
            {
                let ghost cur = engine_state(cursors@, pending@, emitted@,
                    warnings_view(warnings@), window as int, dupe_warning, safe);
                while cursor_admittable(&cursors[i], floor, window)
                    invariant
                        i < n,
                        n == cursors@.len(),
                        pending@.len() > 0,
                        fl == floor as int,
                        sweep(stb, fl, 0, n as int) == sweep(
                            engine_state(cursors@, pending@, emitted@,
                                warnings_view(warnings@), window as int, dupe_warning,
                                safe), fl, i as int, n as int),
                    decreases cursors@[i as int].rev@.len(),
                {
                    let ghost cur0 = engine_state(cursors@, pending@, emitted@,
                        warnings_view(warnings@), window as int, dupe_warning, safe);
                    proof {
                        lemma_reverse_parts(cursors@[i as int].rev@);
                        assert(cur0.streams[i as int].rest
                            == cursors@[i as int].rev@.reverse());
                        assert(has_head(cur0, i as int));
                        assert(head(cur0, i as int)
                            == cursors@[i as int].rev@[cursors@[i as int].rev@.len() - 1]);
                        assert(head(cur0, i as int).ts <= fl + window as int);
                    }
                    let ghost prev = cursors@;
                    let m = cursors[i].rev.pop().unwrap();
                    proof {
                        assert(m == head(cur0, i as int));
                    }
                    // Count the pending messages this one duplicates.
                    let mut cnt: usize = 0;
                    let mut j: usize = 0;
                    while j < pending.len()
                        invariant
                            j <= pending@.len(),
                            cnt <= j,
                            cnt as int == match_count_upto(pending@, m, j as int),
                        decreases pending@.len() - j,
                    {
                        if pending[j].duplicates(&m) {
                            cnt += 1;
                        }
                        j += 1;
                    }
                    proof {
                        assert(cnt as int == match_count(pending@, m));
                    }
                    if cnt > 0 {
                        if dupe_warning && cnt > 1 {
                            warnings.push(DupWarning { message: m, count: cnt });
                        }
                    } else {
                        // Insert after every pending entry with an earlier or
                        // equal timestamp.
                        let mut k: usize = 0;
                        while k < pending.len() && pending[k].ts <= m.ts
                            invariant
                                k <= pending@.len(),
                                insert_index(pending@, m, 0) == insert_index(pending@, m,
                                    k as int),
                            decreases pending@.len() - k,
                        {
                            k += 1;
                        }
                        proof {
                            assert(insert_index(pending@, m, 0) == k as int);
                            lemma_insert_index_bounds(pending@, m, 0);
                        }
                        pending.insert(k, m);
                    }
                    proof {
                        let cur1 = engine_state(cursors@, pending@, emitted@,
                            warnings_view(warnings@), window as int, dupe_warning, safe);
                        let am = admit_message(cur0, i as int);
                        assert(cursors_streams(cursors@) =~= am.streams);
                        assert(cursors_active(cursors@) =~= am.active);
                        if match_count(cur0.pending, m) > 0 {
                            if dupe_warning && match_count(cur0.pending, m) > 1 {
                                assert(warnings_view(warnings@) =~= am.warnings);
                            }
                        } else {
                            assert(pending@ == pend_insert(cur0.pending, m));
                        }
                        assert(cur1 == am);
                        assert(drain_stream(cur0, fl, i as int)
                            == drain_stream(am, fl, i as int));
                        assert(sweep(cur0, fl, i as int, n as int)
                            == sweep(am, fl, i as int, n as int));
                    }
                }
                // The stream is now out of the window, inactive, or out of
                // data; settle the latter case.
                let ghost cur2 = engine_state(cursors@, pending@, emitted@,
                    warnings_view(warnings@), window as int, dupe_warning, safe);
                if cursors[i].active && cursors[i].rev.len() == 0 {
                    if cursors[i].failed {
                        proof {
                            assert(cur2.streams[i as int].rest
                                == cursors@[i as int].rev@.reverse());
                            assert(cur2.streams[i as int].rest.len() == 0);
                            let ab = EngineModel { aborted: true, ..cur2 };
                            assert(drain_stream(cur2, fl, i as int) == ab);
                            assert(sweep(cur2, fl, i as int, n as int)
                                == sweep(ab, fl, i as int + 1, n as int));
                            assert(sweep(ab, fl, i as int + 1, n as int) == ab);
                            assert(sweep(cur2, fl, i as int, n as int) == ab);
                            assert(sweep(stb, fl, 0, n as int) == ab);
                            assert(run(stb) == ab);
                            assert(ab.emitted == emitted@);
                        }
                        return MergeOutcome { emitted, warnings, failed: true };
                    } else {
                        let ghost prev2 = cursors@;
                        cursors[i].active = false;
                        proof {
                            let cur3 = engine_state(cursors@, pending@, emitted@,
                                warnings_view(warnings@), window as int, dupe_warning,
                                safe);
                            assert(cursors_streams(cursors@)
                                =~= cursors_streams(prev2));
                            assert(cursors_active(cursors@)
                                =~= cur2.active.update(i as int, false));
                            assert(drain_stream(cur2, fl, i as int) == cur3);
                            assert(drain_stream(cur3, fl, i as int) == cur3);
                            assert(sweep(cur2, fl, i as int, n as int)
                                == sweep(cur3, fl, i as int + 1, n as int));
                            assert(sweep(cur3, fl, i as int, n as int)
                                == sweep(cur3, fl, i as int + 1, n as int));
                        }
                    }
                } else {
                    proof {
                        assert(cur2.streams[i as int].rest
                            == cursors@[i as int].rev@.reverse());
                        if cursors@[i as int].active && cursors@[i as int].rev@.len() > 0 {
                            lemma_reverse_parts(cursors@[i as int].rev@);
                            assert(head(cur2, i as int)
                                == cursors@[i as int].rev@[cursors@[i as int].rev@.len()
                                - 1]);
                            assert(head(cur2, i as int).ts > fl + cur2.window);
                        }
                        assert(drain_stream(cur2, fl, i as int) == cur2);
                        assert(sweep(cur2, fl, i as int, n as int)
                            == sweep(cur2, fl, i as int + 1, n as int));
                    }
                }
                i += 1;
            }
            // The pass is over: commit the earliest pending message.
            let ghost s1 = engine_state(cursors@, pending@, emitted@,
                warnings_view(warnings@), window as int, dupe_warning, safe);
            proof {
                assert(sweep(stb, fl, 0, n as int) == s1);
            }
            let m = pending.remove(0);
            emitted.push(m);
            proof {
                safe = safe && commit_guard(s1, m);
                let cf = commit_front(s1);
                assert(pending@ =~= cf.pending);
                let cur4 = engine_state(cursors@, pending@, emitted@,
                    warnings_view(warnings@), window as int, dupe_warning, safe);
                assert(cur4 == cf);
                assert(run(stb) == run(cf));
                lemma_sweep_measure(stb, fl, 0, n as int);
                lemma_remaining_same(s1, cf, 0);
                assert(measure(cf) < measure(stb));
            }
        }
    }
}

} // verus!
