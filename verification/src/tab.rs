//! The per-tab pipeline: an optional fast-forward pre-pass that trusts the
//! first stream up to a checkpoint, then the merge-deduplication engine —
//! except that a tab with a single source is passed straight through,
//! whatever the window.

use vstd::prelude::*;
use crate::engine::DecodedStream;
use crate::engine::DupWarning;
use crate::engine::merge_streams;
use crate::engine::streams_view;
use crate::engine::warnings_view;
use crate::message::Message;
use crate::model::StreamModel;
use crate::model::init_model;
use crate::model::run;

verus! {

/// The first position in `ms`, scanning from `i`, whose timestamp is past
/// the checkpoint: strictly past it when `strict` is false, at or past it
/// when `strict` is true.
pub open spec fn cut_from(ms: Seq<Message>, c: u64, strict: bool, i: int) -> int
    decreases ms.len() - i,
{
    if 0 <= i < ms.len() && ((strict && (ms[i].ts as int) < c as int) || (!strict
        && (ms[i].ts as int) <= c as int)) {
        cut_from(ms, c, strict, i + 1)
    } else {
        i
    }
}

pub proof fn lemma_cut_from_bounds(ms: Seq<Message>, c: u64, strict: bool, i: int)
    requires
        0 <= i <= ms.len(),
    ensures
        i <= cut_from(ms, c, strict, i) <= ms.len(),
    decreases ms.len() - i,
{
    if 0 <= i < ms.len() && ((strict && (ms[i].ts as int) < c as int) || (!strict
        && (ms[i].ts as int) <= c as int)) {
        lemma_cut_from_bounds(ms, c, strict, i + 1);
    }
}

/// What the fast-forward pre-pass emits: the first stream's prefix at or
/// before the checkpoint.
pub open spec fn ff_prefix(ss: Seq<StreamModel>, c: u64) -> Seq<Message> {
    ss[0].rest.take(cut_from(ss[0].rest, c, false, 0))
}

/// The streams the engine then runs on: the first stream past its emitted
/// prefix, every other stream past its messages strictly before the
/// checkpoint.
pub open spec fn ff_streams(ss: Seq<StreamModel>, c: u64) -> Seq<StreamModel> {
    Seq::new(ss.len(), |i: int| StreamModel {
        rest: if i == 0 {
            ss[0].rest.skip(cut_from(ss[0].rest, c, false, 0))
        } else {
            ss[i].rest.skip(cut_from(ss[i].rest, c, true, 0))
        },
        failed: ss[i].failed,
    })
}

/// The position where a stream's checkpoint cut falls.
fn cut_point(v: &Vec<Message>, c: u64, strict: bool) -> (k: usize)
    ensures
        k as int == cut_from(v@, c, strict, 0),
        k <= v@.len(),
{
    let mut k: usize = 0;
    while k < v.len() && ((strict && (v[k].ts as u64) < c) || (!strict && (v[k].ts as u64) <= c))
        invariant
            k <= v@.len(),
            cut_from(v@, c, strict, 0) == cut_from(v@, c, strict, k as int),
        decreases v@.len() - k,
    {
        k += 1;
    }
    k
}

/// Fast-forward: emit (and consume) the first stream's messages at or
/// before the checkpoint without any duplicate comparison, and silently
/// drop every other stream's messages strictly before it.
fn fast_forward(streams: &mut Vec<DecodedStream>, checkpoint: u64) -> (r: Vec<Message>)
    requires
        old(streams)@.len() >= 1,
    ensures
        final(streams)@.len() == old(streams)@.len(),
        streams_view(final(streams)@) == ff_streams(streams_view(old(streams)@), checkpoint),
        r@ == ff_prefix(streams_view(old(streams)@), checkpoint),
{
    let ghost orig = streams_view(old(streams)@);
    let k = cut_point(&streams[0].msgs, checkpoint, false);
    let mut tail = streams[0].msgs.split_off(k);
    core::mem::swap(&mut streams[0].msgs, &mut tail);
    let emitted = tail;
    proof {
        assert(orig[0].rest == old(streams)@[0].msgs@);
        assert(emitted@ == ff_prefix(orig, checkpoint));
    }
    let mut i: usize = 1;
    while i < streams.len()
        invariant
            1 <= i <= streams@.len(),
            streams@.len() == old(streams)@.len(),
            orig == streams_view(old(streams)@),
            orig.len() == streams@.len(),
            streams@[0].msgs@ == orig[0].rest.skip(cut_from(orig[0].rest, checkpoint, false, 0)),
            streams@[0].failed == orig[0].failed,
            forall|j: int| 1 <= j < i ==> (#[trigger] streams@[j]).msgs@ == orig[j].rest.skip(
                cut_from(orig[j].rest, checkpoint, true, 0)) && streams@[j].failed
                == orig[j].failed,
            forall|j: int| i <= j < streams@.len() ==> (#[trigger] streams@[j]).msgs@
                == orig[j].rest && streams@[j].failed == orig[j].failed,
        decreases streams@.len() - i,
    {
        let k2 = cut_point(&streams[i].msgs, checkpoint, true);
        let mut t2 = streams[i].msgs.split_off(k2);
        core::mem::swap(&mut streams[i].msgs, &mut t2);
        i += 1;
    }
    proof {
        assert(streams_view(streams@) =~= ff_streams(orig, checkpoint));
    }
    emitted
}

/// What one tab's merge produced.
pub struct TabOutcome {
    pub emitted: Vec<Message>,
    pub warnings: Vec<DupWarning>,
    pub failed: bool,
}

/// Merge one tab's already-opened streams.
///
/// * A tab with exactly one source is passed straight through, whatever
///   the window: its decoded messages, in order, and its failure flag.
/// * Otherwise, with a fast-forward checkpoint, the first stream's prefix
///   is emitted as is, the other streams are advanced, and the engine runs
///   on what remains.
/// * Otherwise the engine runs on the streams as given.
pub fn merge_tab(
    streams: Vec<DecodedStream>,
    window: u64,
    dupe_warning: bool,
    fast_forward_to: Option<u64>,
) -> (r: TabOutcome)
    ensures
        streams@.len() == 1 ==> r.emitted@ == streams@[0].msgs@ && r.failed
            == streams@[0].failed && r.warnings@.len() == 0,
        streams@.len() != 1 && (fast_forward_to is None || streams@.len() == 0) ==> ({
            let fin = run(init_model(streams_view(streams@), window as int, dupe_warning));
            &&& r.emitted@ == fin.emitted
            &&& warnings_view(r.warnings@) == fin.warnings
            &&& r.failed == fin.aborted
        }),
        (streams@.len() >= 2 && fast_forward_to is Some) ==> ({
            let c = fast_forward_to.unwrap();
            let ss = streams_view(streams@);
            let fin = run(init_model(ff_streams(ss, c), window as int, dupe_warning));
            &&& r.emitted@ == ff_prefix(ss, c) + fin.emitted
            &&& warnings_view(r.warnings@) == fin.warnings
            &&& r.failed == fin.aborted
        }),
{
    let mut ss = streams;
    if ss.len() == 1 {
        let s = ss.remove(0);
        return TabOutcome { emitted: s.msgs, warnings: Vec::new(), failed: s.failed };
    }
    let mut prefix: Vec<Message> = Vec::new();
    if ss.len() >= 2 {
        match fast_forward_to {
            Option::Some(c) => {
                prefix = fast_forward(&mut ss, c);
            },
            Option::None => {},
        }
    }
    let outcome = merge_streams(ss, window, dupe_warning);
    let mut emitted = prefix;
    let mut rest = outcome.emitted;
    emitted.append(&mut rest);
    TabOutcome { emitted, warnings: outcome.warnings, failed: outcome.failed }
}

} // verus!
