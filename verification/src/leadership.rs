//! What a leader's bookkeeping is worth: whom it counts, what it sends to
//! each follower, and how far it says that all of them are.

use vstd::prelude::*;

use crate::error::{worded, ErrorModel};
use crate::node::{
    ack_of, acks, advances, backfill_frames, between, first_request, follower_work, link_work,
    links_to, lowest, proposed, reachable, retained, rising, values_known, FollowerModel,
    LeaderModel, LinkModel, OutcomeModel, ProposalModel,
};
use crate::protocol::FrameModel;
use crate::state::State;
use crate::wal::{Logged, RecordModel};

verus! {

/// The followers of `links` that have acknowledged everything up to `lsn`.
pub open spec fn acknowledged_by(links: Seq<LinkModel>, lsn: u64) -> Set<int> {
    Set::range(0, links.len() as int).filter(|i: int| links[i].match_index >= lsn)
}

/// The followers of `links` that can be reached.
pub open spec fn alive_among(links: Seq<LinkModel>) -> Set<int> {
    Set::range(0, links.len() as int).filter(|i: int| links[i].alive)
}

proof fn lemma_acks_count(links: Seq<LinkModel>, lsn: u64)
    ensures
        acknowledged_by(links, lsn).finite(),
        acks(links, lsn) == acknowledged_by(links, lsn).len() + 1,
    decreases links.len(),
{
    let all = acknowledged_by(links, lsn);
    if links.len() == 0 {
        assert(all =~= Set::<int>::empty());
    } else {
        let n = links.len() - 1;
        let rest = links.drop_last();
        lemma_acks_count(rest, lsn);
        let some = acknowledged_by(rest, lsn);
        if links.last().match_index >= lsn {
            assert(all =~= some.insert(n));
            assert(!some.contains(n));
        } else {
            assert(all =~= some);
        }
    }
}

proof fn lemma_reachable_count(links: Seq<LinkModel>)
    ensures
        alive_among(links).finite(),
        reachable(links) == alive_among(links).len() + 1,
    decreases links.len(),
{
    let all = alive_among(links);
    if links.len() == 0 {
        assert(all =~= Set::<int>::empty());
    } else {
        let n = links.len() - 1;
        let rest = links.drop_last();
        lemma_reachable_count(rest);
        let some = alive_among(rest);
        if links.last().alive {
            assert(all =~= some.insert(n));
            assert(!some.contains(n));
        } else {
            assert(all =~= some);
        }
    }
}

/// A proposal that is on its way is agreed to as soon as more than half of the
/// nodes have acknowledged it, the leader among them, and not before. It is
/// given up only when its time is over and no more than half of the nodes can
/// be reached. Otherwise it stays on its way. Asking changes nothing else.
pub proof fn lemma_majority_decides(
    l: LeaderModel,
    end: u64,
    expired: bool,
    l2: LeaderModel,
    p2: ProposalModel,
)
    requires
        advances(
            l,
            ProposalModel::Shipped { end },
            OutcomeModel::Polled { expired },
            l2,
            p2,
        ),
    ensures
        ({
            let nodes = l.links.len() + 1;
            let have = acknowledged_by(l.links, end).len() + 1;
            let up = alive_among(l.links).len() + 1;
            &&& l2 == l
            &&& 2 * have > nodes ==> p2 == (ProposalModel::Agreed { end })
            &&& 2 * have <= nodes && expired && 2 * up <= nodes ==> p2 == (
            ProposalModel::Refused { msg: "quorum lost"@ })
            &&& 2 * have <= nodes && !(expired && 2 * up <= nodes) ==> p2 == (
            ProposalModel::Shipped { end })
        }),
{
    lemma_acks_count(l.links, end);
    lemma_reachable_count(l.links);
}

/// A quorum is the smallest majority of the leader and its `n` followers.
pub proof fn lemma_quorum_is_least_majority(l: LeaderModel)
    ensures
        2 * l.quorum() > l.links.len() + 1,
        2 * (l.quorum() - 1) <= l.links.len() + 1,
{
}

/// A leader starts with one link to every node but itself, in the order of
/// their ids, each with that node's address. None of them was heard of yet.
pub proof fn lemma_links_to_all_others(peers: Seq<String>, id: u64)
    requires
        peers.len() <= u64::MAX,
    ensures
        ({
            let links = links_to(peers, id);
            &&& forall|i: int|
                0 <= i < links.len() ==> {
                    let f = #[trigger] links[i];
                    &&& f.id < peers.len()
                    &&& f.id != id
                    &&& f.addr == peers[f.id as int]@
                    &&& f.match_index == 0
                    &&& f.committed_through == 0
                    &&& !f.alive
                    &&& f.queue.len() == 0
                }
            &&& forall|i: int, j: int|
                0 <= i < j < links.len() ==> (#[trigger] links[i]).id < (#[trigger] links[j]).id
            &&& links.len() == peers.len() - if id < peers.len() {
                1int
            } else {
                0
            }
        }),
    decreases peers.len(),
{
    if peers.len() > 0 {
        lemma_links_to_all_others(peers.drop_last(), id);
        let links = links_to(peers, id);
        let rest = links_to(peers.drop_last(), id);
        assert forall|i: int| 0 <= i < links.len() implies (#[trigger] links[i]).id < peers.len()
            && links[i].addr == peers[links[i].id as int]@ by {
            if i < rest.len() {
                assert(links[i] == rest[i]);
            }
        }
        assert forall|i: int, j: int| 0 <= i < j < links.len() implies (#[trigger] links[i]).id
            < (#[trigger] links[j]).id by {
            assert(links[i] == rest[i]);
            if j < rest.len() {
                assert(links[j] == rest[j]);
            }
        }
    }
}

/// No follower counts as having committed more than it has acknowledged, nor
/// more than the leader has committed.
pub open spec fn sound(l: LeaderModel) -> bool {
    forall|i: int|
        0 <= i < l.links.len() ==> (#[trigger] l.links[i]).committed_through
            <= l.links[i].match_index && l.links[i].committed_through <= l.commit_index
}

/// A leader that has just started is [`sound`]: it takes the last LSN that was
/// given out for committed, and no follower for up, failed, or caught up.
pub proof fn lemma_starts_sound(peers: Seq<String>, id: u64, next_lsn: u64)
    requires
        peers.len() <= u64::MAX,
        next_lsn >= 1,
    ensures
        ({
            let l = LeaderModel::started(peers, id, next_lsn);
            &&& sound(l)
            &&& l.commit_index + 1 == next_lsn
            &&& l.links == links_to(peers, id)
            &&& forall|n: u64| !l.failed.contains(n)
            &&& l.links.len() > 0 ==> l.horizon() == 0
            &&& l.links.len() == 0 ==> l.horizon() == l.commit_index
        }),
{
    lemma_links_to_all_others(peers, id);
    lemma_horizon(LeaderModel::started(peers, id, next_lsn));
}

/// A connection that comes up or breaks changes whether that follower can be
/// reached, and nothing else.
pub proof fn lemma_connection(l: LeaderModel, i: int, alive: bool)
    requires
        sound(l),
        0 <= i < l.links.len(),
    ensures
        ({
            let l2 = l.linked(i, alive);
            &&& sound(l2)
            &&& l2.commit_index == l.commit_index
            &&& l2.failed == l.failed
            &&& l2.links.len() == l.links.len()
            &&& l2.links[i].alive == alive
            &&& l2.links[i] == LinkModel { alive, ..l.links[i] }
            &&& forall|j: int| 0 <= j < l.links.len() && j != i ==> l2.links[j] == l.links[j]
        }),
{
}

/// What is queued for a follower goes out first in, first out: the frame that
/// is taken is followed by what is left. Nothing is taken only when nothing is
/// queued, and the other followers' queues stay.
pub proof fn lemma_first_in_first_out(l: LeaderModel, i: int)
    requires
        sound(l),
        0 <= i < l.links.len(),
    ensures
        ({
            let l2 = l.sent(i);
            let left = l2.links[i].queue;
            &&& sound(l2)
            &&& l2.commit_index == l.commit_index
            &&& l2.failed == l.failed
            &&& l2.links.len() == l.links.len()
            &&& forall|j: int| 0 <= j < l.links.len() && j != i ==> l2.links[j] == l.links[j]
            &&& l2.links[i] == LinkModel { queue: left, ..l.links[i] }
            &&& match l.next_for(i) {
                Some(f) => l.links[i].queue == seq![f] + left,
                None => l.links[i].queue.len() == 0 && left.len() == 0,
            }
        }),
{
    if l.links[i].queue.len() > 0 {
        assert(l.links[i].queue =~= seq![l.links[i].queue[0]] + l.links[i].queue.skip(1));
    }
}

/// An acknowledgement up to `lsn` raises how far the follower is known to be to
/// `lsn`, never lowers it, and says nothing of the others. The follower has
/// committed what the leader has, once it has acknowledged all of that, and
/// not before.
pub proof fn lemma_acknowledgement(l: LeaderModel, i: int, lsn: u64)
    requires
        sound(l),
        0 <= i < l.links.len(),
    ensures
        ({
            let l2 = l.acked(i, lsn);
            let (f, f2) = (l.links[i], l2.links[i]);
            &&& sound(l2)
            &&& l2.commit_index == l.commit_index
            &&& l2.failed == l.failed
            &&& l2.links.len() == l.links.len()
            &&& forall|j: int| 0 <= j < l.links.len() && j != i ==> l2.links[j] == l.links[j]
            &&& f2.id == f.id && f2.addr == f.addr && f2.alive == f.alive && f2.queue == f.queue
            &&& f2.match_index >= lsn && f2.match_index >= f.match_index
            &&& f2.match_index == lsn || f2.match_index == f.match_index
            &&& lsn >= l.commit_index ==> f2.committed_through == l.commit_index
            &&& lsn < l.commit_index ==> f2.committed_through == f.committed_through
        }),
{
}

/// Whatever comes of a proposal leaves a leader [`sound`], and what it knows of
/// its followers as it was. A commit has a higher LSN than the ones before.
pub proof fn lemma_proposal_keeps_sound(
    l: LeaderModel,
    p: ProposalModel,
    o: OutcomeModel,
    l2: LeaderModel,
    p2: ProposalModel,
)
    requires
        sound(l),
        advances(l, p, o, l2, p2),
        o matches OutcomeModel::Committed(Ok(block)) ==> block >= l.commit_index,
    ensures
        sound(l2),
        l2.failed == l.failed,
        l2.links.len() == l.links.len(),
        forall|i: int|
            0 <= i < l.links.len() ==> {
                let (f, f2) = (l.links[i], #[trigger] l2.links[i]);
                &&& f2.id == f.id
                &&& f2.addr == f.addr
                &&& f2.match_index == f.match_index
                &&& f2.committed_through == f.committed_through
                &&& f2.alive == f.alive
                &&& f2.queue.len() >= f.queue.len()
                &&& f2.queue.take(f.queue.len() as int) == f.queue
            },
{
    assert forall|i: int| 0 <= i < l.links.len() implies (#[trigger] l2.links[i]).queue.take(
        l.links[i].queue.len() as int,
    ) == l.links[i].queue && l2.links[i].committed_through == l.links[i].committed_through by {
        assert(l2.links[i].queue.take(l.links[i].queue.len() as int) =~= l.links[i].queue);
    }
}

/// Of all that a client can send only the simulation of a failure changes what
/// the leader knows. The follower that it names counts as failed and cannot be
/// reached from then on; the others are not touched, and nothing that was
/// acknowledged is forgotten.
pub proof fn lemma_failure(l: LeaderModel, node_id: u64, frame: FrameModel)
    requires
        sound(l),
    ensures
        !(frame is SimulateFailure) ==> l.told(frame) == l,
        ({
            let l2 = l.told(FrameModel::SimulateFailure { node_id });
            &&& sound(l2)
            &&& l2.commit_index == l.commit_index
            &&& forall|id: u64|
                l2.failed.contains(id) <==> id == node_id || l.failed.contains(id)
            &&& l2.links.len() == l.links.len()
            &&& forall|i: int|
                0 <= i < l.links.len() ==> {
                    let (f, f2) = (l.links[i], #[trigger] l2.links[i]);
                    &&& f.id != node_id ==> f2 == f
                    &&& f.id == node_id ==> f2 == LinkModel { alive: false, ..f }
                }
        }),
{
}

proof fn lemma_lowest(links: Seq<LinkModel>)
    requires
        links.len() > 0,
    ensures
        forall|i: int|
            0 <= i < links.len() ==> lowest(links) <= (#[trigger] links[i]).committed_through,
        exists|i: int|
            0 <= i < links.len() && lowest(links) == (#[trigger] links[i]).committed_through,
    decreases links.len(),
{
    let rest = links.drop_last();
    let n = links.len() - 1;
    if rest.len() > 0 {
        lemma_lowest(rest);
        let k = choose|k: int|
            0 <= k < rest.len() && lowest(rest) == (#[trigger] rest[k]).committed_through;
        assert(links[k] == rest[k]);
        assert forall|i: int| 0 <= i < links.len() implies lowest(links) <= (
        #[trigger] links[i]).committed_through by {
            if i < n {
                assert(links[i] == rest[i]);
            }
        }
        assert(links[n].committed_through == lowest(links) || links[k].committed_through == lowest(
            links,
        ));
    } else {
        assert(lowest(rest) == u64::MAX);
        assert(links[n] == links.last());
        assert(links[n].committed_through == lowest(links));
    }
}

/// The horizon is the largest LSN that every follower has committed: none has
/// committed or acknowledged less, and one has committed no more. Once all of
/// them have committed what the leader has, it is the leader's commit index.
pub proof fn lemma_horizon(l: LeaderModel)
    requires
        sound(l),
    ensures
        l.horizon() <= l.commit_index,
        forall|i: int|
            0 <= i < l.links.len() ==> l.horizon() <= (#[trigger] l.links[i]).committed_through
                && l.horizon() <= l.links[i].match_index,
        l.horizon() == l.commit_index || exists|i: int|
            0 <= i < l.links.len() && (#[trigger] l.links[i]).committed_through == l.horizon(),
        (forall|i: int|
            0 <= i < l.links.len() ==> (#[trigger] l.links[i]).committed_through == l.commit_index)
            ==> l.horizon() == l.commit_index,
{
    if l.links.len() > 0 {
        lemma_lowest(l.links);
        let k = choose|k: int|
            0 <= k < l.links.len() && lowest(l.links) == (#[trigger] l.links[k]).committed_through;
        assert(l.links[k].committed_through <= l.commit_index);
    }
}

/// A proposal ends with the last of its records, so that to have everything up
/// to its end is to have all of them. It holds them, and the value, unchanged.
pub proof fn lemma_proposal_ends_with_its_records(
    records: Seq<Logged>,
    value: Option<Seq<u8>>,
    i: int,
)
    requires
        rising(records),
        0 <= i < records.len(),
    ensures
        match proposed(records, value) {
            ProposalModel::Logged { records: r, value: v, end } => {
                &&& r == records
                &&& v == value
                &&& records[i].0 <= end
                &&& exists|j: int| 0 <= j < records.len() && (#[trigger] records[j]).0 == end
            },
            _ => false,
        },
{
    let n = records.len() - 1;
    assert(records[n] == records.last());
    if i < n {
        assert(records[i].0 < records[n].0);
    }
}

/// Once the log is synced, every follower is sent every record of the
/// proposal, in order and at its LSN, behind what it was sent before: each put
/// with the whole of its value, every other record without one. A barrier
/// follows, up to the end of the proposal.
pub proof fn lemma_records_are_sent_whole(
    l: LeaderModel,
    records: Seq<Logged>,
    value: Option<Seq<u8>>,
    end: u64,
    l2: LeaderModel,
    p2: ProposalModel,
    i: int,
)
    requires
        advances(
            l,
            ProposalModel::Logged { records, value, end },
            OutcomeModel::Synced(Ok::<(), ErrorModel>(())),
            l2,
            p2,
        ),
        0 <= i < l.links.len(),
    ensures
        p2 == (ProposalModel::Shipped { end }),
        l2.commit_index == l.commit_index,
        l2.links.len() == l.links.len(),
        ({
            let n = l.links[i].queue.len() as int;
            let queue = l2.links[i].queue;
            &&& queue.len() == n + records.len() + 1
            &&& queue.take(n) == l.links[i].queue
            &&& forall|j: int|
                0 <= j < records.len() ==> #[trigger] queue[n + j] == (FrameModel::Append {
                    lsn: records[j].0,
                    rec: records[j].1,
                    data: if records[j].1 is Put {
                        value
                    } else {
                        None
                    },
                })
            &&& queue.last() == (FrameModel::SyncBarrier { lsn: end })
        }),
{
    assert(l2.links[i].queue.take(l.links[i].queue.len() as int) =~= l.links[i].queue);
}

/// A follower that is sent a put that it has not applied yet is to apply that
/// put, at its LSN, with as many bytes as the record says that its value has.
/// What it has applied it passes over. A barrier makes it sync.
pub proof fn lemma_sent_put_is_taken(
    l: LeaderModel,
    records: Seq<Logged>,
    value: Seq<u8>,
    end: u64,
    l2: LeaderModel,
    p2: ProposalModel,
    i: int,
    j: int,
    applied_upto: u64,
)
    requires
        advances(
            l,
            ProposalModel::Logged { records, value: Some(value), end },
            OutcomeModel::Synced(Ok::<(), ErrorModel>(())),
            l2,
            p2,
        ),
        0 <= i < l.links.len(),
        0 <= j < records.len(),
        records[j].1 matches RecordModel::Put { len, .. } && len == value.len(),
    ensures
        ({
            let sent = l2.links[i].queue[l.links[i].queue.len() + j];
            &&& records[j].0 > applied_upto ==> follower_work(sent, applied_upto) == (
            FollowerModel::Apply { lsn: records[j].0, rec: records[j].1, data: Some(value) })
                && records[j].1->Put_len == value.len()
            &&& records[j].0 <= applied_upto ==> follower_work(sent, applied_upto) is Nothing
        }),
        follower_work(l2.links[i].queue.last(), applied_upto) is Sync,
{
    lemma_records_are_sent_whole(l, records, Some(value), end, l2, p2, i);
}

/// A commit in the leader's log at `block` makes `block` the commit index, and
/// is sent to every follower at that LSN, with a barrier behind it.
pub proof fn lemma_commit_is_sent(
    l: LeaderModel,
    end: u64,
    block: u64,
    l2: LeaderModel,
    p2: ProposalModel,
    i: int,
)
    requires
        advances(
            l,
            ProposalModel::Agreed { end },
            OutcomeModel::Committed(Ok::<u64, ErrorModel>(block)),
            l2,
            p2,
        ),
        0 <= i < l.links.len(),
    ensures
        p2 == (ProposalModel::Decided { end, block }),
        l2.commit_index == block,
        l2.links.len() == l.links.len(),
        l2.links[i].queue == l.links[i].queue + seq![
            FrameModel::Append { lsn: block, rec: RecordModel::Commit { lsn: end }, data: None },
            FrameModel::SyncBarrier { lsn: block },
        ],
{
    assert(l2.links[i].queue =~= l.links[i].queue + seq![
        FrameModel::Append { lsn: block, rec: RecordModel::Commit { lsn: end }, data: None },
        FrameModel::SyncBarrier { lsn: block },
    ]);
}

/// A sync or a commit that fails ends the proposal, for the reason that it
/// failed; nothing is sent, and the commit index stays.
pub proof fn lemma_failed_step_changes_nothing(
    l: LeaderModel,
    p: ProposalModel,
    e: ErrorModel,
    l2: LeaderModel,
    p2: ProposalModel,
)
    requires
        p is Logged && advances(l, p, OutcomeModel::Synced(Err::<(), ErrorModel>(e)), l2, p2) || p
            is Agreed && advances(l, p, OutcomeModel::Committed(Err::<u64, ErrorModel>(e)), l2, p2),
    ensures
        l2 == l,
        p2 matches ProposalModel::Refused { msg } && worded(e, msg),
{
}

/// A proposal waits for what belongs to its step, and is not touched by anything
/// else. One that has ended stays as it is.
pub proof fn lemma_other_outcomes_change_nothing(
    l: LeaderModel,
    p: ProposalModel,
    o: OutcomeModel,
    l2: LeaderModel,
    p2: ProposalModel,
)
    requires
        advances(l, p, o, l2, p2),
        p is Logged ==> !(o is Synced),
        p is Shipped ==> !(o is Polled),
        p is Agreed ==> !(o is Committed),
    ensures
        l2 == l,
        p2 == p,
{
}

proof fn lemma_retained_is_filter(queue: Seq<FrameModel>, commit: u64)
    ensures
        retained(queue, commit) == queue.filter(
            |f: FrameModel|
                match f {
                    FrameModel::Append { lsn, .. } => lsn > commit,
                    FrameModel::SyncBarrier { lsn } => lsn > commit,
                    _ => false,
                },
        ),
    decreases queue.len(),
{
    reveal(Seq::filter);
    if queue.len() > 0 {
        lemma_retained_is_filter(queue.drop_last(), commit);
    }
}

/// The records of a backfill are those of the log from the one that was asked
/// for up to the commit, all of them, in the order of the log.
pub proof fn lemma_backfill_records(log: Seq<Logged>, from: u64, commit: u64)
    ensures
        between(log, from, commit) == log.filter(|l: Logged| from <= l.0 && l.0 <= commit),
    decreases log.len(),
{
    reveal(Seq::filter);
    if log.len() > 0 {
        lemma_backfill_records(log.drop_last(), from, commit);
    }
}

/// A backfill goes to the follower that asked for it before anything else:
/// every record at its LSN, each put with the whole of its value, then a
/// barrier up to the commit. A put whose value is not known stops it. Of what
/// was queued for the follower before, it replaces what it covers, and keeps,
/// in order, what lies behind the commit.
pub proof fn lemma_backfill_is_sent_whole(
    l: LeaderModel,
    i: int,
    records: Seq<Logged>,
    values: Seq<Option<Seq<u8>>>,
    commit: u64,
)
    requires
        sound(l),
        0 <= i < l.links.len(),
        values.len() == records.len(),
    ensures
        values_known(records, values) <==> !exists|j: int|
            0 <= j < records.len() && (#[trigger] records[j]).1 is Put && values[j] is None,
        ({
            let l2 = l.refilled(i, records, values, commit);
            let n = records.len() as int;
            let queue = l2.links[i].queue;
            &&& sound(l2)
            &&& l2.commit_index == l.commit_index
            &&& l2.failed == l.failed
            &&& l2.links.len() == l.links.len()
            &&& forall|j: int| 0 <= j < l.links.len() && j != i ==> l2.links[j] == l.links[j]
            &&& l2.links[i] == LinkModel { queue, ..l.links[i] }
            &&& queue.len() > n
            &&& forall|j: int|
                0 <= j < n ==> #[trigger] queue[j] == (FrameModel::Append {
                    lsn: records[j].0,
                    rec: records[j].1,
                    data: if records[j].1 is Put {
                        values[j]
                    } else {
                        None
                    },
                })
            &&& queue[n] == (FrameModel::SyncBarrier { lsn: commit })
            &&& queue.skip(n + 1) == l.links[i].queue.filter(
                |f: FrameModel|
                    match f {
                        FrameModel::Append { lsn, .. } => lsn > commit,
                        FrameModel::SyncBarrier { lsn } => lsn > commit,
                        _ => false,
                    },
            )
        }),
{
    let l2 = l.refilled(i, records, values, commit);
    let n = records.len() as int;
    let queue = l2.links[i].queue;
    lemma_retained_is_filter(l.links[i].queue, commit);
    assert(queue == backfill_frames(records, values, commit) + retained(l.links[i].queue, commit));
    assert(queue.skip(n + 1) =~= retained(l.links[i].queue, commit));
}

/// A follower that connects again is sent everything that it lacks: a record of
/// the leader's log lies behind its last durable commit, up to the leader's
/// commit index. Then the frame that the follower sends has the leader backfill
/// records with that one among them, up to its commit index, and none that the
/// follower has committed already.
pub proof fn lemma_follower_asks_for_what_it_lacks<F>(
    l: LeaderModel,
    log: Seq<Logged>,
    s: State<F>,
    record: Logged,
)
    requires
        s.durable_commit < u64::MAX,
        log.contains(record),
    ensures
        ({
            let work = link_work(first_request(s));
            let (records, commit) = l.backfill_of(log, work->from);
            &&& work is Backfill
            &&& commit == l.commit_index
            &&& records.contains(record) <==> s.durable_commit < record.0 && record.0
                <= l.commit_index
        }),
{
    let from = link_work(first_request(s))->from;
    lemma_backfill_records(log, from, l.commit_index);
    lemma_filtered(log, |l2: Logged| from <= l2.0 && l2.0 <= l.commit_index, record);
}

proof fn lemma_filtered(log: Seq<Logged>, keep: spec_fn(Logged) -> bool, record: Logged)
    ensures
        log.filter(keep).contains(record) <==> log.contains(record) && keep(record),
    decreases log.len(),
{
    reveal(Seq::filter);
    if log.len() > 0 {
        let front = log.drop_last();
        lemma_filtered(front, keep, record);
        let rest = front.filter(keep);
        let n = log.len() - 1;
        if log.contains(record) {
            let k = choose|k: int| 0 <= k < log.len() && log[k] == record;
            if k < n {
                assert(front[k] == record);
            }
        }
        if front.contains(record) {
            let k = choose|k: int| 0 <= k < front.len() && front[k] == record;
            assert(log[k] == record);
        }
        if keep(log.last()) {
            let all = rest.push(log.last());
            assert(all[rest.len() as int] == log.last());
            if rest.contains(record) {
                let k = choose|k: int| 0 <= k < rest.len() && rest[k] == record;
                assert(all[k] == record);
            }
            if all.contains(record) {
                let k = choose|k: int| 0 <= k < all.len() && all[k] == record;
                if k < rest.len() {
                    assert(rest[k] == record);
                } else {
                    assert(log[n] == record);
                }
            }
        }
    }
}

/// What a follower says that it has on disk is what the leader takes it to
/// have acknowledged.
pub proof fn lemma_acknowledgement_arrives(l: LeaderModel, i: int, applied_upto: u64)
    requires
        sound(l),
        0 <= i < l.links.len(),
    ensures
        ({
            let work = link_work(ack_of(applied_upto));
            &&& work is Ack
            &&& work->lsn == applied_upto
            &&& l.acked(i, work->lsn).links[i].match_index >= applied_upto
            &&& l.links[i].match_index <= applied_upto ==> l.acked(
                i,
                work->lsn,
            ).links[i].match_index == applied_upto
        }),
{
}

} // verus!
