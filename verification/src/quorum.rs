//! Quorum safety: what a majority has acknowledged, a majority had on disk.

use vstd::prelude::*;

use crate::error::{ErrorModel, StoreError};
use crate::layout::{moved, played, recovered, replaced, swaps, Layout};
use crate::node::{
    acks, lemma_decided_means_acknowledged, lemma_quorum_is_majority, rising, takes_steps,
    LeaderModel, LinkModel, OutcomeModel, ProposalModel,
};
use crate::replay::lemma_repoint_all_frame;
use crate::segment::apply::{applies, done_as, ApplyDone};
use crate::state::State;
use crate::wal::Logged;

verus! {

/// `log` holds every record of the leader up to `lsn`.
pub open spec fn holds_upto(leader: Seq<Logged>, log: Seq<Logged>, lsn: u64) -> bool {
    forall|i: int|
        0 <= i < leader.len() && (#[trigger] leader[i]).0 <= lsn ==> log.contains(leader[i])
}

/// A follower's log holds every record of the leader up to the last one that
/// it has applied.
pub open spec fn has_all<F>(leader: Seq<Logged>, s: State<F>) -> bool {
    holds_upto(leader, s.wal.log(), s.layout.applied_upto)
}

/// A follower that applies the leader's records in order has all records up to
/// the last one that it has applied, be the next record taken or refused. A
/// record that is taken counts as applied.
pub proof fn lemma_apply_keeps_records<F>(
    leader: Seq<Logged>,
    k: int,
    before: State<F>,
    data: Option<Seq<u8>>,
    io: ApplyDone<F>,
    after: State<F>,
    res: Result<(), StoreError>,
)
    requires
        rising(leader),
        0 <= k < leader.len(),
        has_all(leader, before),
        forall|j: int| 0 <= j < k ==> (#[trigger] leader[j]).0 <= before.layout.applied_upto,
        done_as(before.io_kind(leader[k].1, data), io),
        applies(before, leader[k].0, leader[k].1, data, io, after, res),
    ensures
        has_all(leader, after),
        before.layout.applied_upto <= after.layout.applied_upto,
        res is Ok ==> leader[k].0 <= after.layout.applied_upto,
        res is Err ==> after.layout.applied_upto == before.layout.applied_upto,
{
    let old_log = before.wal.log();
    let new_log = after.wal.log();
    assert(new_log =~= old_log || new_log =~= old_log.push(leader[k]));
    assert forall|i: int|
        0 <= i < leader.len() && (#[trigger] leader[i]).0
            <= after.layout.applied_upto implies new_log.contains(leader[i]) by {
        if leader[i].0 <= before.layout.applied_upto {
            let x = choose|x: int| 0 <= x < old_log.len() && old_log[x] == leader[i];
            assert(new_log[x] == leader[i]);
        } else {
            assert(leader[i].0 <= leader[k].0);
            assert(i == k);
            assert(new_log[new_log.len() - 1] == leader[k]);
        }
    }
}

/// Syncing and completing a replacement lose no record. What was applied is on
/// disk after a sync, so an acknowledgement sent then tells the truth.
pub proof fn lemma_synced_is_durable<F>(leader: Seq<Logged>, s: State<F>, file: F)
    requires
        has_all(leader, s),
    ensures
        has_all(leader, s.swap_finished(file)),
        has_all(leader, s.all_synced()),
        holds_upto(leader, s.all_synced().wal.durable, s.all_synced().layout.applied_upto),
{
    let t = s.all_synced();
    assert(t.wal.log() =~= s.wal.log());
    assert(t.wal.durable =~= s.wal.log());
    assert(s.swap_finished(file).layout.applied_upto == s.layout.applied_upto) by {
        if let Some(w) = s.swap {
            lemma_repoint_all_frame(s.layout, w.entries, w.new);
        }
    }
}

proof fn lemma_played_upto(log: Seq<Logged>)
    requires
        rising(log),
    ensures
        played(log).applied_upto == (if log.len() == 0 {
            0
        } else {
            log.last().0
        }),
    decreases log.len(),
{
    if log.len() > 0 {
        let front = log.drop_last();
        assert(rising(front)) by {
            assert forall|i: int, j: int| 0 <= i < j < front.len() implies (#[trigger] front[i]).0
                < (#[trigger] front[j]).0 by {
                assert(log[i].0 < log[j].0);
            }
        }
        lemma_played_upto(front);
        if front.len() > 0 {
            assert(log[front.len() - 1].0 < log[log.len() - 1].0);
        }
    }
}

proof fn lemma_replaced_upto(l: Layout, log: Seq<Logged>, pairs: Seq<(u64, u64)>)
    ensures
        replaced(l, log, pairs).applied_upto == l.applied_upto,
    decreases pairs.len(),
{
    if pairs.len() > 0 {
        let front = pairs.drop_last();
        let new = pairs.last().1;
        lemma_replaced_upto(l, log, front);
        lemma_repoint_all_frame(replaced(l, log, front), moved(log, new), new);
    }
}

/// A follower that restarts has all records up to the last one that it
/// recovers, if its log held nothing but what it had applied.
pub proof fn lemma_restart_keeps_records<F>(
    leader: Seq<Logged>,
    s: State<F>,
    t: State<F>,
    m: int,
)
    requires
        has_all(leader, s),
        rising(s.wal.log()),
        forall|i: int|
            0 <= i < s.wal.log().len() ==> (#[trigger] s.wal.log()[i]).0 <= s.layout.applied_upto,
        0 <= m <= s.wal.log().len(),
        t.wal.log() == s.wal.log().take(m),
        t.layout == recovered(t.wal.log()),
        forall|i: int| 0 <= i < leader.len() ==> (#[trigger] leader[i]).0 > 0,
    ensures
        has_all(leader, t),
{
    let log = s.wal.log();
    let kept = t.wal.log();
    assert forall|i: int, j: int| 0 <= i < j < kept.len() implies (#[trigger] kept[i]).0 < (
    #[trigger] kept[j]).0 by {
        assert(log[i].0 < log[j].0);
    }
    lemma_played_upto(kept);
    lemma_replaced_upto(played(kept), kept, swaps(kept));
    assert forall|i: int|
        0 <= i < leader.len() && (#[trigger] leader[i]).0
            <= t.layout.applied_upto implies t.wal.log().contains(leader[i]) by {
        assert(m > 0);
        assert(t.wal.log()[m - 1] == log[m - 1]);
        assert(log[m - 1].0 <= s.layout.applied_upto);
        let x = choose|x: int| 0 <= x < log.len() && log[x] == leader[i];
        if x >= m {
            assert(log[m - 1].0 < log[x].0);
        }
        assert(t.wal.log()[x] == leader[i]);
    }
}

/// A new record of the leader takes nothing back.
pub proof fn lemma_new_record_keeps_holds(
    leader: Seq<Logged>,
    r: Logged,
    log: Seq<Logged>,
    lsn: u64,
)
    requires
        holds_upto(leader, log, lsn),
        lsn < r.0,
    ensures
        holds_upto(leader.push(r), log, lsn),
{
    assert forall|i: int|
        0 <= i < leader.push(r).len() && (#[trigger] leader.push(r)[i]).0
            <= lsn implies log.contains(leader.push(r)[i]) by {
        assert(i < leader.len());
        assert(leader.push(r)[i] == leader[i]);
    }
}

/// `disks` are the logs that the followers had on disk when they last
/// acknowledged: each held every record of the leader up to what the leader
/// takes the follower to have.
pub open spec fn backed(
    leader: Seq<Logged>,
    disks: Seq<Seq<Logged>>,
    links: Seq<LinkModel>,
) -> bool {
    &&& disks.len() == links.len()
    &&& forall|i: int|
        0 <= i < links.len() ==> holds_upto(
            leader,
            disks[i],
            (#[trigger] links[i]).match_index,
        )
}

/// Follower `i`, in state `s`, syncs and acknowledges what it has applied:
/// what the leader takes its followers to have is still what they had on disk.
pub proof fn lemma_ack_is_backed<F>(
    leader: Seq<Logged>,
    disks: Seq<Seq<Logged>>,
    l: LeaderModel,
    i: int,
    s: State<F>,
)
    requires
        backed(leader, disks, l.links),
        0 <= i < l.links.len(),
        has_all(leader, s),
        l.links[i].match_index <= s.layout.applied_upto,
    ensures
        backed(
            leader,
            disks.update(i, s.all_synced().wal.durable),
            l.acked(i, s.layout.applied_upto).links,
        ),
{
    assert(s.all_synced().wal.durable =~= s.wal.log());
}

/// How many of the followers had everything up to `lsn` on disk.
pub open spec fn holding(leader: Seq<Logged>, disks: Seq<Seq<Logged>>, lsn: u64) -> nat
    decreases disks.len(),
{
    if disks.len() == 0 {
        0
    } else {
        holding(leader, disks.drop_last(), lsn) + if holds_upto(leader, disks.last(), lsn) {
            1nat
        } else {
            0
        }
    }
}

proof fn lemma_acks_are_held(
    leader: Seq<Logged>,
    disks: Seq<Seq<Logged>>,
    links: Seq<LinkModel>,
    lsn: u64,
)
    requires
        backed(leader, disks, links),
    ensures
        acks(links, lsn) <= 1 + holding(leader, disks, lsn),
    decreases links.len(),
{
    if links.len() > 0 {
        assert(backed(leader, disks.drop_last(), links.drop_last())) by {
            assert forall|i: int| 0 <= i < links.len() - 1 implies holds_upto(
                leader,
                disks.drop_last()[i],
                (#[trigger] links.drop_last()[i]).match_index,
            ) by {
                assert(links.drop_last()[i] == links[i]);
            }
        }
        lemma_acks_are_held(leader, disks.drop_last(), links.drop_last(), lsn);
        assert(links[links.len() - 1] == links.last());
    }
}

/// Quorum safety: a proposal is decided only after the leader's log was
/// synced, after a majority, counting the leader, had every record up to the
/// proposal's last one on disk, and after its commit succeeded, in this order.
/// `leader` is the leader's log and `disks[i]` what the followers had on disk
/// at step `i`, as in [`backed`].
pub proof fn lemma_decided_is_on_a_majority(
    leader: Seq<Logged>,
    disks: Seq<Seq<Seq<Logged>>>,
    seen: Seq<(LeaderModel, OutcomeModel)>,
    steps: Seq<ProposalModel>,
)
    requires
        takes_steps(seen, steps),
        steps.last() is Decided,
        disks.len() == seen.len(),
        forall|i: int|
            0 <= i < seen.len() ==> backed(leader, disks[i], (#[trigger] seen[i]).0.links),
    ensures
        exists|a: int, b: int, c: int|
            #![trigger seen[a], seen[b], seen[c]]
            {
                &&& 0 <= a < b < c < seen.len()
                &&& seen[a].1 is Synced && seen[a].1->Synced_0 is Ok
                &&& 2 * (1 + holding(leader, disks[b], steps.last()->Decided_end))
                    > disks[b].len() + 1
                &&& seen[c].1 == OutcomeModel::Committed(
                    Ok::<u64, ErrorModel>(steps.last()->Decided_block),
                )
            },
{
    lemma_decided_means_acknowledged(seen, steps);
    let end = steps.last()->Decided_end;
    let (a, b, c) = choose|a: int, b: int, c: int|
        #![trigger seen[a], seen[b], seen[c]]
        {
            &&& 0 <= a < b < c < seen.len()
            &&& seen[a].1 is Synced && seen[a].1->Synced_0 is Ok
            &&& acks(seen[b].0.links, end) >= seen[b].0.quorum()
            &&& seen[c].1 == OutcomeModel::Committed(
                Ok::<u64, ErrorModel>(steps.last()->Decided_block),
            )
        };
    lemma_acks_are_held(leader, disks[b], seen[b].0.links, end);
    lemma_quorum_is_majority(seen[b].0);
    assert(seen[a].1 is Synced && seen[c].1 is Committed);
}

} // verus!
