//! A follower's side of a connection: what it applies, what it acknowledges,
//! and when it stops.

use vstd::prelude::*;

use crate::error::StoreError;
use crate::node::{
    ack_due, follower_work, on_disk, stays_open, stream_work, FollowerModel,
};
use crate::protocol::FrameModel;
use crate::quorum::has_all;
use crate::replay::lemma_repoint_all_frame;
use crate::segment::apply::{applies, done_as, ApplyDone};
use crate::segment::syncs;
use crate::state::{Published, State};
use crate::wal::Logged;

verus! {

/// A follower's store and its connection.
#[verifier::reject_recursive_types(F)]
pub ghost struct Standing<F> {
    pub s: State<F>,
    pub shown: Published<F>,
    pub open: bool,
}

/// A frame that the follower took, what came of the file operations that it
/// called for, and the reply.
#[verifier::reject_recursive_types(F)]
pub ghost struct Taken<F> {
    pub frame: FrameModel,
    pub io: ApplyDone<F>,
    /// The file of the replacement that waited, if one did.
    pub reopened: Result<F, StoreError>,
    pub segments: Result<(), StoreError>,
    pub wal: Result<(), StoreError>,
    pub res: Result<(), StoreError>,
    pub reply: Option<FrameModel>,
}

/// A follower completes the replacement that waits, if one does, and syncs.
pub open spec fn follower_syncs<F>(w: Standing<F>, t: Taken<F>, w2: Standing<F>) -> bool {
    match (w.s.swap, t.reopened) {
        (Some(_), Err(e)) => {
            &&& t.res == Err::<(), StoreError>(e)
            &&& w2.s == (State { swap: None, ..w.s })
            &&& w2.shown == w.shown
        },
        (Some(_), Ok(file)) => syncs(
            w.s.swap_finished(file),
            w.shown,
            t.segments,
            t.wal,
            w2.s,
            w2.shown,
            t.res,
        ),
        (None, _) => syncs(w.s, w.shown, t.segments, t.wal, w2.s, w2.shown, t.res),
    }
}

/// `w` becomes `w2` by taking `t`.
pub open spec fn takes<F>(w: Standing<F>, t: Taken<F>, w2: Standing<F>) -> bool {
    match stream_work(w.open, t.frame, w.s.layout.applied_upto) {
        FollowerModel::Apply { lsn, rec, data } => {
            &&& done_as(w.s.io_kind(rec, data), t.io)
            &&& applies(w.s, lsn, rec, data, t.io, w2.s, t.res)
            &&& w2.shown == w.shown
            &&& w2.open == stays_open(w.open, t.res is Ok)
            &&& t.reply is None
        },
        FollowerModel::Sync => {
            &&& follower_syncs(w, t, w2)
            &&& w2.open == stays_open(w.open, t.res is Ok)
            &&& t.reply == ack_due(w2.open, w2.s.layout.applied_upto)
        },
        FollowerModel::Nothing => w2 == w && t.reply is None,
    }
}

/// `ws` are the standings of a follower that takes `ts`, one after the other.
pub open spec fn serves<F>(ts: Seq<Taken<F>>, ws: Seq<Standing<F>>) -> bool {
    &&& ws.len() == ts.len() + 1
    &&& ws[0].open
    &&& ws[0].s.commits_applied()
    &&& forall|i: int| 0 <= i < ts.len() ==> takes(ws[i], #[trigger] ts[i], ws[i + 1])
}

proof fn lemma_take_keeps_commits<F>(w: Standing<F>, t: Taken<F>, w2: Standing<F>)
    requires
        takes(w, t, w2),
        w.s.commits_applied(),
    ensures
        w2.s.commits_applied(),
        t.reply is Some ==> on_disk(w2.s),
{
    if let Some(x) = w.s.swap {
        lemma_repoint_all_frame(w.s.layout, x.entries, x.new);
    }
}

proof fn lemma_commits_stay_applied<F>(ts: Seq<Taken<F>>, ws: Seq<Standing<F>>, i: int)
    requires
        serves(ts, ws),
        0 <= i < ws.len(),
    ensures
        ws[i].s.commits_applied(),
    decreases i,
{
    if i > 0 {
        lemma_commits_stay_applied(ts, ws, i - 1);
        assert(takes(ws[i - 1], ts[i - 1], ws[i - 1 + 1]));
        lemma_take_keeps_commits(ws[i - 1], ts[i - 1], ws[i]);
    }
}

/// A follower changes nothing for a record at or below its last durable
/// commit, and applies the one that it is sent, with its value, if that lies
/// behind all that it has applied. It acknowledges every barrier once, and nothing else, with the last
/// record that it has applied, and only after a sync that succeeded, with all
/// of it on disk. After a record that it refuses, or a sync that fails, it
/// takes nothing more.
pub proof fn lemma_follower_stream<F>(ts: Seq<Taken<F>>, ws: Seq<Standing<F>>, i: int, j: int)
    requires
        serves(ts, ws),
        0 <= i < ts.len(),
        i < j < ws.len(),
    ensures
        ts[i].frame matches FrameModel::Append { lsn, .. } ==> (lsn <= ws[i].s.durable_commit
            ==> ws[i + 1] == ws[i]),
        ts[i].frame matches FrameModel::Append { lsn, rec, data } ==> (ws[i].open && lsn
            > ws[i].s.layout.applied_upto ==> applies(
            ws[i].s,
            lsn,
            rec,
            data,
            ts[i].io,
            ws[i + 1].s,
            ts[i].res,
        )),
        ts[i].reply matches Some(f) ==> {
            &&& ts[i].frame is SyncBarrier
            &&& ts[i].res is Ok
            &&& on_disk(ws[i + 1].s)
            &&& f == (FrameModel::SyncAck { lsn: ws[i + 1].s.layout.applied_upto })
        },
        ts[i].frame is SyncBarrier && ws[i].open ==> (ts[i].reply is Some <==> ts[i].res is Ok),
        ws[i].open && !ws[i + 1].open <==> ws[i].open && ts[i].res is Err && !(follower_work(
            ts[i].frame,
            ws[i].s.layout.applied_upto,
        ) is Nothing),
        !ws[i + 1].open ==> ws[j] == ws[i + 1] && (j < ts.len() ==> ts[j].reply is None),
    decreases j,
{
    lemma_commits_stay_applied(ts, ws, i);
    assert(takes(ws[i], ts[i], ws[i + 1]));
    lemma_take_keeps_commits(ws[i], ts[i], ws[i + 1]);
    if j < ts.len() {
        assert(takes(ws[j], ts[j], ws[j + 1]));
    }
    if j > i + 1 {
        lemma_follower_stream(ts, ws, i, j - 1);
        assert(takes(ws[j - 1], ts[j - 1], ws[j - 1 + 1]));
    }
}

/// What a follower passes over, it has: a record of the leader that is sent
/// again is in its log already.
pub proof fn lemma_passed_over_is_known<F>(
    leader: Seq<Logged>,
    k: int,
    data: Option<Seq<u8>>,
    s: State<F>,
)
    requires
        0 <= k < leader.len(),
        has_all(leader, s),
        follower_work(
            FrameModel::Append { lsn: leader[k].0, rec: leader[k].1, data },
            s.layout.applied_upto,
        ) is Nothing,
    ensures
        s.wal.log().contains(leader[k]),
{
}

} // verus!
