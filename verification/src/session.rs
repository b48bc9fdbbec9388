//! What a client can rely on: its puts, once acknowledged, are read.

use vstd::prelude::*;

use crate::census::{lemma_totals_match_listing, listed_len};
use crate::error::ErrorModel;
use crate::footprint::lemma_compaction_frees;
use crate::guarantees::{got_upto, lemma_fetched};
use crate::leadership::{lemma_horizon, sound};
use crate::node::{
    acks, capacity_answer, compact_answer, ending, get_answer, lemma_decided_means_acknowledged,
    put_answer, step_taken, takes_steps, total_len, work_for, LeaderModel, OutcomeModel,
    ProposalModel, WorkModel,
};
use crate::protocol::FrameModel;
use crate::rollup::{join, lemma_under_is_below, segments, Aggregate};
use crate::segment::compact::{plans, puts_len, PlanModel};
use crate::segment::handle;
use crate::segment::read::{lists_under, totals};
use crate::showing::{
    lemma_finish_serves, lemma_put_serves, lemma_start_serves, lemma_steps_are_shown, serving,
    step_done, Service, Step,
};
use crate::sorting::{listed_models, Listed};
use crate::state::{Published, State};
use crate::table::{lemma_slot, lookup, slot};
use crate::visible::{fits, lemma_visible, whole};

verus! {

/// `frame` is a request of a client.
pub open spec fn is_request(frame: FrameModel) -> bool {
    match frame {
        FrameModel::PutReq { .. } => true,
        FrameModel::GetReq { .. } => true,
        FrameModel::StatusReq => true,
        FrameModel::ProbeFsync => true,
        FrameModel::Compact => true,
        FrameModel::ListReq { .. } => true,
        FrameModel::CapacityReq { .. } => true,
        FrameModel::SimulateFailure { .. } => true,
        _ => false,
    }
}

/// `reply` is of the kind that `request` asks for, with its id.
pub open spec fn answers(reply: FrameModel, request: FrameModel) -> bool {
    match request {
        FrameModel::PutReq { id: i, .. } => match reply {
            FrameModel::PutOk { id } => id == i,
            FrameModel::PutErr { id, .. } => id == i,
            _ => false,
        },
        FrameModel::GetReq { id: i, .. } => reply matches FrameModel::GetOk { id, .. } && id == i,
        FrameModel::StatusReq => reply is StatusOk,
        FrameModel::ProbeFsync => reply is ProbeFsyncResp,
        FrameModel::Compact => reply is CompactDone,
        FrameModel::ListReq { id: i, .. } => reply matches FrameModel::ListOk { id, .. } && id == i,
        FrameModel::CapacityReq { id: i, .. } => reply matches FrameModel::CapacityOk { id, .. }
            && id == i,
        FrameModel::SimulateFailure { .. } => reply is SimulateFailureDone,
        _ => false,
    }
}

/// `reply` may be what comes of `work`.
pub open spec fn comes_of(reply: FrameModel, work: WorkModel) -> bool {
    match work {
        WorkModel::Put { id, .. } => exists|res: Result<(), Seq<char>>|
            reply == #[trigger] put_answer(id, res),
        WorkModel::Get { id, .. } => exists|value: Option<Seq<u8>>|
            reply == #[trigger] get_answer(id, value),
        WorkModel::Compact { .. } => reply is CompactDone,
        WorkModel::List { id: i, .. } => reply matches FrameModel::ListOk { id, .. } && id == i,
        WorkModel::Capacity { id: i, .. } => reply matches FrameModel::CapacityOk { id, .. } && id
            == i,
        WorkModel::Reply(f) => reply == f,
        WorkModel::Nothing => false,
    }
}

/// Every request asks for work, and whatever comes of it is an answer to the
/// request, with its id. Nothing else gets a reply.
pub proof fn lemma_requests_are_answered(
    l: LeaderModel,
    frame: FrameModel,
    fsyncs: u64,
    reply: FrameModel,
)
    ensures
        work_for(l, frame, fsyncs) is Nothing <==> !is_request(frame),
        comes_of(reply, work_for(l, frame, fsyncs)) ==> answers(reply, frame),
{
}

/// What is done for a request is done with what the request holds: its id, its
/// key and value, or its prefix. A read goes up to the leader's commit index,
/// so that it sees all that is committed and nothing else.
pub proof fn lemma_requests_are_passed_on(
    l: LeaderModel,
    id: u64,
    key: Seq<char>,
    value: Seq<u8>,
    prefix: Seq<char>,
    fsyncs: u64,
)
    ensures
        work_for(l, FrameModel::PutReq { id, key, value }, fsyncs) == (WorkModel::Put {
            id,
            key,
            value,
        }),
        work_for(l, FrameModel::GetReq { id, key }, fsyncs) == (WorkModel::Get {
            id,
            key,
            upto: l.commit_index,
        }),
        work_for(l, FrameModel::ListReq { id, prefix }, fsyncs) == (WorkModel::List { id, prefix }),
        work_for(l, FrameModel::CapacityReq { id, prefix }, fsyncs) == (WorkModel::Capacity {
            id,
            prefix,
        }),
        work_for(l, FrameModel::ProbeFsync, fsyncs) == WorkModel::Reply(
            FrameModel::ProbeFsyncResp { count: fsyncs },
        ),
{
}

/// The status that a leader gives holds its commit index, and of each of its
/// followers, in order, how far it has acknowledged.
pub proof fn lemma_status_is_told(l: LeaderModel, fsyncs: u64, i: int)
    requires
        0 <= i < l.links.len(),
    ensures
        match work_for(l, FrameModel::StatusReq, fsyncs) {
            WorkModel::Reply(FrameModel::StatusOk { commit_index, matches }) => {
                &&& commit_index == l.commit_index
                &&& matches.len() == l.links.len()
                &&& matches[i] == (l.links[i].id, l.links[i].match_index)
            },
            _ => false,
        },
{
}

/// A compaction that a client asks for forgets nothing that a follower may
/// still have to be sent: it goes no further than what every one of them has
/// acknowledged, and than what is committed.
pub proof fn lemma_compaction_spares_followers(l: LeaderModel, fsyncs: u64)
    requires
        sound(l),
    ensures
        match work_for(l, FrameModel::Compact, fsyncs) {
            WorkModel::Compact { horizon } => {
                &&& horizon <= l.commit_index
                &&& forall|i: int|
                    0 <= i < l.links.len() ==> horizon <= (#[trigger] l.links[i]).match_index
                &&& (forall|i: int|
                    0 <= i < l.links.len() ==> (#[trigger] l.links[i]).committed_through
                        == l.commit_index) ==> horizon == l.commit_index
            },
            _ => false,
        },
{
    lemma_horizon(l);
}

/// A client is told how many bytes a compaction gave back: all those of the
/// values that it dropped. One that failed gave back none.
pub proof fn lemma_freed_bytes_are_told<F>(
    s: State<F>,
    horizon: u64,
    plan: PlanModel<F>,
    why: String,
)
    requires
        plans(s, horizon, plan),
        puts_len(s.layout, plan.dropped) <= u64::MAX,
    ensures
        compact_answer(Ok(plan.freed)) is CompactDone,
        compact_answer(Ok(plan.freed))->freed == plan.dropped.fold_left(
            0int,
            |sum: int, lsn: u64| sum + s.layout.puts[lsn].len,
        ),
        compact_answer(Err(why)) == (FrameModel::CompactDone { freed: 0 }),
{
    lemma_compaction_frees(s, horizon, plan);
}

/// The rows that answer a request for a list are those of the keys below the
/// prefix that it names: each is committed, has the length of its newest value,
/// and is the prefix, a slash and more, slashes at the ends and repeated ones
/// aside. No key that is so is left out.
pub proof fn lemma_list_is_of_the_prefix<F>(
    l: LeaderModel,
    id: u64,
    prefix: Seq<char>,
    fsyncs: u64,
    p: Published<F>,
    rows: Seq<Listed>,
    key: Seq<char>,
    len: u32,
)
    requires
        lists_under(
            p,
            work_for(l, FrameModel::ListReq { id, prefix }, fsyncs)->List_prefix,
            rows,
        ),
    ensures
        work_for(l, FrameModel::ListReq { id, prefix }, fsyncs) is List,
        work_for(l, FrameModel::ListReq { id, prefix }, fsyncs)->List_id == id,
        rows.contains((key, len)) <==> {
            &&& lookup(p.index, key) is Some
            &&& lookup(p.index, key)->0.lsn <= p.committed
            &&& lookup(p.index, key)->0.len == len
            &&& exists|rest: Seq<char>|
                segments(rest).len() > 0 && segments(key) == segments(
                    #[trigger] (prefix + seq!['/'] + rest),
                )
        },
{
    lemma_under_is_below(key, prefix);
}

proof fn lemma_lens(keys: Seq<(String, u32)>)
    ensures
        total_len(keys) == listed_len(listed_models(keys)),
    decreases keys.len(),
{
    if keys.len() > 0 {
        lemma_lens(keys.drop_last());
        assert(listed_models(keys).drop_last() =~= listed_models(keys.drop_last()));
    }
}

/// The capacity that a leader tells a client is that of the prefix that the
/// client asked for: the aggregate that was kept and the recount agree on how
/// many keys are listed under it, and on how many bytes they have together.
pub proof fn lemma_capacity_is_of_the_prefix<F>(
    l: LeaderModel,
    id: u64,
    prefix: Seq<char>,
    fsyncs: u64,
    p: Published<F>,
    agg: Aggregate,
    keys: Seq<(String, u32)>,
    rows: Seq<Listed>,
)
    requires
        whole(p),
        forall|i: int| 0 <= i < p.index.len() ==> segments((#[trigger] p.index[i]).0).len() > 0,
        prefix == join(segments(prefix)),
        totals(
            p,
            work_for(l, FrameModel::CapacityReq { id, prefix }, fsyncs)->Capacity_prefix,
            agg,
        ),
        lists_under(
            p,
            work_for(l, FrameModel::CapacityReq { id, prefix }, fsyncs)->Capacity_prefix,
            listed_models(keys),
        ),
        lists_under(p, prefix, rows),
    ensures
        ({
            let asked = work_for(l, FrameModel::CapacityReq { id, prefix }, fsyncs);
            &&& asked is Capacity
            &&& capacity_answer(asked->Capacity_id, agg, keys) == (FrameModel::CapacityOk {
                id,
                aggregate: (rows.len() as u64, listed_len(rows) as u64),
                brute: (rows.len() as u64, listed_len(rows) as u64),
            })
            &&& rows.len() <= u64::MAX
            &&& listed_len(rows) <= u64::MAX
        }),
{
    lemma_totals_match_listing(p, prefix, rows);
    lemma_totals_match_listing(p, prefix, listed_models(keys));
    lemma_lens(keys);
}

/// A change has ended once it was decided or refused. The reply says how: an
/// acknowledgement with the id of the request if it was decided, and otherwise
/// the reason, with that id.
pub proof fn lemma_reply_tells_the_end(id: u64, p: ProposalModel)
    ensures
        ending(p) is Some <==> p is Decided || p is Refused,
        p is Decided ==> put_answer(id, ending(p)->0) == (FrameModel::PutOk { id }),
        p matches ProposalModel::Refused { msg } ==> put_answer(id, ending(p)->0) == (
        FrameModel::PutErr { id, msg }),
{
}

/// The last LSN of what is proposed.
pub open spec fn proposed_end(p: ProposalModel) -> Option<u64> {
    match p {
        ProposalModel::Logged { end, .. } => Some(end),
        ProposalModel::Shipped { end } => Some(end),
        ProposalModel::Agreed { end } => Some(end),
        ProposalModel::Decided { end, .. } => Some(end),
        ProposalModel::Refused { .. } => None,
    }
}

proof fn lemma_end_stays(seen: Seq<(LeaderModel, OutcomeModel)>, steps: Seq<ProposalModel>, n: int)
    requires
        takes_steps(seen, steps),
        0 <= n < steps.len(),
    ensures
        proposed_end(steps[n]) is Some ==> proposed_end(steps[n]) == proposed_end(steps[0]),
    decreases n,
{
    if n > 0 {
        lemma_end_stays(seen, steps, n - 1);
        assert(step_taken(seen[n - 1].0, steps[n - 1], seen[n - 1].1, steps[n - 1 + 1]));
    }
}

/// A put is acknowledged only after a majority has acknowledged its records
/// and the commit of them succeeded, in this order. Otherwise the reply says
/// why not.
pub proof fn lemma_put_ok_means_committed(
    id: u64,
    seen: Seq<(LeaderModel, OutcomeModel)>,
    steps: Seq<ProposalModel>,
)
    requires
        takes_steps(seen, steps),
        ending(steps.last()) is Some,
    ensures
        match put_answer(id, ending(steps.last())->0) {
            FrameModel::PutOk { id: i } => i == id && exists|b: int, c: int|
                #![trigger seen[b], seen[c]]
                {
                    &&& 0 <= b < c < seen.len()
                    &&& acks(seen[b].0.links, proposed_end(steps[0])->0) >= seen[b].0.quorum()
                    &&& seen[c].1 == OutcomeModel::Committed(
                        Ok::<u64, ErrorModel>(steps.last()->Decided_block),
                    )
                },
            FrameModel::PutErr { id: i, msg } => i == id && steps.last() == (
            ProposalModel::Refused { msg }),
            _ => false,
        },
{
    if steps.last() is Decided {
        lemma_decided_means_acknowledged(seen, steps);
        lemma_end_stays(seen, steps, steps.len() - 1);
        let (a, b, c) = choose|a: int, b: int, c: int|
            #![trigger seen[a], seen[b], seen[c]]
            {
                &&& 0 <= a < b < c < seen.len()
                &&& seen[a].1 is Synced && seen[a].1->Synced_0 is Ok
                &&& acks(seen[b].0.links, steps.last()->Decided_end) >= seen[b].0.quorum()
                &&& seen[c].1 == OutcomeModel::Committed(
                    Ok::<u64, ErrorModel>(steps.last()->Decided_block),
                )
            };
        assert(seen[b].0 == seen[b].0 && seen[c].1 is Committed);
    }
}

/// `ws` are the states of a store that starts as `ws[0]` and takes `steps`.
/// Its totals fit in 64 bits.
pub open spec fn runs<F>(steps: Seq<Step<F>>, ws: Seq<Service<F>>) -> bool {
    &&& ws.len() == steps.len() + 1
    &&& forall|i: int| 0 <= i < steps.len() ==> step_done(ws[i], #[trigger] steps[i], ws[i + 1])
    &&& forall|i: int| 0 <= i < ws.len() ==> fits((#[trigger] ws[i]).s.snapshot())
}

/// The newest value of `key` is `value`, put at `lsn`.
spec fn holds_value<F>(w: Service<F>, key: Seq<char>, lsn: u64, value: Seq<u8>) -> bool {
    &&& lookup(w.s.layout.index, key) matches Some(at) && at.lsn == lsn
    &&& w.vals[lsn] == value
}

/// Readers are shown the newest value of `key`, put at `lsn`.
spec fn shows_newest<F>(w: Service<F>, key: Seq<char>, lsn: u64) -> bool {
    &&& lsn <= w.s.layout.committed_lsn
    &&& lookup(w.shown.index, key) == lookup(w.s.layout.index, key)
    &&& w.shown.files.contains_key(lookup(w.shown.index, key)->0.seg)
}

proof fn lemma_snapshot_shows<F>(w: Service<F>, key: Seq<char>, lsn: u64, value: Seq<u8>)
    requires
        serving(w),
        holds_value(w, key, lsn, value),
        w.shown == w.s.snapshot(),
        lsn <= w.s.layout.committed_lsn,
    ensures
        shows_newest(w, key, lsn),
{
    let l = w.s.layout;
    lemma_visible(l.index, l.puts, l.committed_lsn, key);
    lemma_slot(l.index, key);
    let i = slot(l.index, key);
    assert(w.disk.contains_key(l.index[i].1.seg));
}

/// A step other than a put of `key` keeps its value, and shows it if it was
/// shown. A commit that covers it shows it.
proof fn lemma_step_keeps_value<F>(
    w: Service<F>,
    step: Step<F>,
    w2: Service<F>,
    key: Seq<char>,
    lsn: u64,
    value: Seq<u8>,
)
    requires
        serving(w),
        step_done(w, step, w2),
        fits(w2.s.snapshot()),
        holds_value(w, key, lsn, value),
        step is Put ==> step->Put_key != key,
    ensures
        serving(w2),
        holds_value(w2, key, lsn, value),
        shows_newest(w, key, lsn) ==> shows_newest(w2, key, lsn),
        w.s.pending || shows_newest(w, key, lsn) ==> w2.s.pending || shows_newest(w2, key, lsn),
        step is Commit && step->Commit_res is Ok && w.s.pending && lsn <= step->Commit_upto
            ==> shows_newest(w2, key, lsn),
{
    lemma_steps_are_shown(w, step, w2);
    match step {
        Step::Put { .. } => {
            lemma_put_serves(w, step, w2);
            lemma_slot(w.s.layout.index, key);
            let i = slot(w.s.layout.index, key);
            assert(w.s.layout.puts.contains_key(w.s.layout.index[i].1.lsn));
        },
        Step::StartCompaction { .. } => lemma_start_serves(w, step, w2),
        Step::FinishCompaction { .. } => {
            lemma_finish_serves(w, step, w2);
            if shows_newest(w, key, lsn) {
                lemma_snapshot_shows(w2, key, lsn, value);
            }
        },
        Step::Commit { segments, .. } => if w.s.pending && segments is Ok {
            if lsn <= w2.s.layout.committed_lsn {
                lemma_snapshot_shows(w2, key, lsn, value);
            } else {
                lemma_slot(w2.s.layout.index, key);
                let i = slot(w2.s.layout.index, key);
                assert(w2.s.layout.index[i].1.lsn == lsn);
                assert(w.s.layout.index == w2.s.layout.index);
            }
        },
        _ => {},
    }
}

proof fn lemma_value_stays<F>(
    steps: Seq<Step<F>>,
    ws: Seq<Service<F>>,
    key: Seq<char>,
    lsn: u64,
    value: Seq<u8>,
    c: int,
    n: int,
)
    requires
        runs(steps, ws),
        serving(ws[1]),
        holds_value(ws[1], key, lsn, value),
        ws[1].s.pending,
        forall|i: int|
            1 <= i < steps.len() ==> ((#[trigger] steps[i]) is Put ==> steps[i]->Put_key != key),
        1 <= c < steps.len(),
        steps[c] is Commit && steps[c]->Commit_res is Ok && lsn <= steps[c]->Commit_upto,
        1 <= n < ws.len(),
    ensures
        serving(ws[n]),
        holds_value(ws[n], key, lsn, value),
        ws[n].s.pending || shows_newest(ws[n], key, lsn),
        n > c ==> shows_newest(ws[n], key, lsn),
    decreases n,
{
    if n > 1 {
        lemma_value_stays(steps, ws, key, lsn, value, c, n - 1);
        assert(step_done(ws[n - 1], steps[n - 1], ws[n - 1 + 1]));
        assert(fits(ws[n].s.snapshot()));
        lemma_step_keeps_value(ws[n - 1], steps[n - 1], ws[n], key, lsn, value);
    }
}

/// Read-your-writes, for a client: a put request is answered with its id and
/// an acknowledgement. Then a get request for the same key is answered with
/// its own id and the value, as long as no other put of that key comes in
/// between. Puts of other keys, puts that fail, syncs, commits and compactions
/// may.
///
/// `seen` and `proposal` are the steps of the put's proposal. `steps` are what
/// the leader's store does from the put on, and `ws` its states; `c` is the
/// commit that decided the put. `put_by` and `got_by` are the leader when it
/// takes the requests.
pub proof fn lemma_acknowledged_put_is_read<F>(
    i: u64,
    j: u64,
    key: Seq<char>,
    value: Seq<u8>,
    put_by: LeaderModel,
    got_by: LeaderModel,
    fsyncs: u64,
    seen: Seq<(LeaderModel, OutcomeModel)>,
    proposal: Seq<ProposalModel>,
    steps: Seq<Step<F>>,
    ws: Seq<Service<F>>,
    c: int,
)
    requires
        serving(ws[0]),
        runs(steps, ws),
        steps.len() > 0,
        steps[0] is Put && steps[0]->Put_key == key && steps[0]->Put_value == value,
        forall|k: int|
            1 <= k < steps.len() ==> ((#[trigger] steps[k]) is Put ==> steps[k]->Put_key != key),
        takes_steps(seen, proposal),
        proposed_end(proposal[0]) == Some((ws[1].s.wal.next_lsn - 1) as u64),
        proposal.last() is Decided,
        1 <= c < steps.len(),
        steps[c] is Commit && steps[c]->Commit_res is Ok && steps[c]->Commit_upto
            == proposal.last()->Decided_end,
        proposal.last()->Decided_block == ws[c + 1].s.wal.next_lsn - 1,
        proposal.last()->Decided_block <= got_by.commit_index,
    ensures
        work_for(put_by, FrameModel::PutReq { id: i, key, value }, fsyncs) == (WorkModel::Put {
            id: i,
            key,
            value,
        }),
        put_answer(i, ending(proposal.last())->0) == (FrameModel::PutOk { id: i }),
        work_for(got_by, FrameModel::GetReq { id: j, key }, fsyncs) == (WorkModel::Get {
            id: j,
            key,
            upto: got_by.commit_index,
        }),
        got_upto(ws.last().shown, ws.last().disk, key, got_by.commit_index) == Ok::<
            Option<Seq<u8>>,
            ErrorModel,
        >(Some(value)),
        get_answer(
            j,
            got_upto(ws.last().shown, ws.last().disk, key, got_by.commit_index)->Ok_0,
        ) == (FrameModel::GetOk { id: j, value: Some(value) }),
{
    let n = ws.len() - 1;
    let w = ws.last();
    lemma_end_stays(seen, proposal, proposal.len() - 1);
    assert(step_done(ws[0], steps[0], ws[0int + 1]));
    lemma_put_serves(ws[0], steps[0], ws[1]);
    let ready = ws[0].s.before_put(value.len()).with_active(handle(steps[0]->Put_io.opened));
    let lsn = ready.wal.next_lsn;
    assert(holds_value(ws[1], key, lsn, value));
    assert(ws[0].s.has_room(value.len()));
    assert(lsn < ws[1].s.wal.next_lsn);
    lemma_value_stays(steps, ws, key, lsn, value, c, n);
    lemma_value_stays(steps, ws, key, lsn, value, c, c + 1);
    let l = w.s.layout;
    lemma_slot(l.index, key);
    let at = lookup(l.index, key)->0;
    let x = slot(l.index, key);
    assert(l.index[x].1 == at);
    assert(l.puts.contains_key(at.lsn));
    assert(w.disk.contains_key(at.seg));
    lemma_fetched(w.disk, l.puts[at.lsn], value);
    assert(lsn < ws[c + 1].s.wal.next_lsn) by {
        let then = ws[c + 1].s.layout;
        lemma_slot(then.index, key);
        let y = slot(then.index, key);
        assert(then.puts.contains_key(then.index[y].1.lsn));
    }
}

} // verus!
