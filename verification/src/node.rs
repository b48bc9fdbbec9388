//! Single-leader log replication.
//!
//! The leader stages each PUT in its WAL, fsyncs it, ships the records to
//! every follower, and waits for a majority of fsync ACKs (counting itself)
//! before appending the `Commit` record and replying to the client. A PUT
//! is only acknowledged after its commit is durable; if a majority cannot
//! be reached, the PUT fails instead. Reads are served only up to the
//! commit index, so a GET after an ACKed PUT always sees the new value.
//!
//! Followers apply replicated records at the leader's LSNs, so their WAL
//! and segment layout match the leader's. A follower that falls behind (or
//! restarts) sends `NeedFrom` and the leader streams a backfill of the
//! records it missed, plus the current commit index.
//!
//! Sockets, threads and waiting are left to the caller: it performs what the
//! functions here decide, and hands back what came of it.

use std::collections::{BTreeSet, VecDeque};
use vstd::prelude::*;
use vstd::string::*;

use crate::error::{worded, ErrorModel, StoreError};
use crate::protocol::{bytes_of, Frame, FrameModel, ROLE_FOLLOWER, ROLE_LEADER};
use crate::rollup::Aggregate;
use crate::segment::{Store, StoreOptions};
use crate::state::State;
use crate::text::{decimal, digits, lemma_number_reads_back, number_in, parse_decimal};
use crate::wal::{logged_models, Logged, Lsn, Record, RecordModel};

verus! {

/// The length that a node's segments are not to exceed, whose variable has the
/// value `var`.
pub open spec fn segment_limit(var: Option<Seq<char>>) -> u64 {
    match var {
        Some(v) => match number_in(v) {
            Some(n) => n,
            None => 16777216,
        },
        None => 16777216,
    }
}

/// A number in the variable is the limit, as it stands. Without one it is 16
/// MiB.
pub proof fn lemma_limit_is_the_number(n: u64, text: Seq<char>)
    ensures
        segment_limit(Some(digits(n as nat))) == n,
        number_in(text) is None ==> segment_limit(Some(text)) == 16 * 1024 * 1024,
        segment_limit(None) == 16 * 1024 * 1024,
{
    lemma_number_reads_back(n, 0);
}

/// The options of a node's store. `var` is the value of
/// `SV_SEGMENT_MAX_BYTES`, if it is set; one that is no number has no effect.
pub fn store_options(var: Option<&str>) -> (opts: StoreOptions)
    ensures
        opts.segment_max_bytes == segment_limit(
            match var {
                Some(v) => Some(v@),
                None => None,
            },
        ),
{
    let mut opts = StoreOptions::default();
    if let Some(v) = var {
        if let Some(n) = parse_decimal(v) {
            opts.segment_max_bytes = n;
        }
    }
    opts
}

pub struct Config {
    pub id: u64,
    pub addr: String,
    pub peers: Vec<String>,
    pub dir: String,
    pub role: u8,
}

/// What a node does.
#[derive(Debug, Clone, Copy, PartialEq, Eq)]
pub enum Duty {
    Lead,
    Follow,
}

/// What a node of the role `role` is to do, if there is such a role.
pub open spec fn duty_of(role: u8) -> Option<Duty> {
    if role == ROLE_LEADER {
        Some(Duty::Lead)
    } else if role == ROLE_FOLLOWER {
        Some(Duty::Follow)
    } else {
        None
    }
}

/// The frame is a leader's greeting.
pub open spec fn greets_as_leader(frame: FrameModel) -> bool {
    frame matches FrameModel::Hello { role, .. } && role == ROLE_LEADER
}

/// A node leads, follows, or has no role that there is; it leads exactly if it
/// greets others as a leader.
pub proof fn lemma_roles(role: u8, id: u64)
    ensures
        duty_of(role) == Some(Duty::Lead) <==> role == 0,
        duty_of(role) == Some(Duty::Follow) <==> role == 1,
        greets_as_leader(FrameModel::Hello { id, role }) <==> duty_of(role) == Some(Duty::Lead),
{
}

/// What a node that is started with this configuration is to do.
pub fn run(cfg: &Config) -> (duty: Result<Duty, String>)
    ensures
        match duty {
            Ok(d) => duty_of(cfg.role) == Some(d),
            Err(msg) => duty_of(cfg.role) is None && msg@ == "unknown role "@ + digits(
                cfg.role as nat,
            ),
        },
{
    if cfg.role == ROLE_LEADER {
        Ok(Duty::Lead)
    } else if cfg.role == ROLE_FOLLOWER {
        Ok(Duty::Follow)
    } else {
        let mut msg = "unknown role ".to_string();
        msg.append(decimal(cfg.role as u64).as_str());
        Err(msg)
    }
}

/// What the frames of a queue say.
pub open spec fn frame_models(frames: Seq<Frame>) -> Seq<FrameModel> {
    frames.map_values(|f: Frame| f@)
}

/// Puts frames at the end of a queue.
pub fn enqueue(queue: &mut VecDeque<Frame>, frames: Vec<Frame>)
    ensures
        frame_models(final(queue)@) == frame_models(old(queue)@) + frame_models(frames@),
{
    let ghost all = frames@;
    let ghost before = frame_models(queue@);
    let mut rest: VecDeque<Frame> = VecDeque::new();
    let mut frames = frames;
    while frames.len() > 0
        invariant
            frames@.len() <= all.len(),
            frames@ == all.take(frames@.len() as int),
            rest@ == all.skip(frames@.len() as int),
        decreases frames@.len(),
    {
        let ghost n = frames@.len();
        if let Some(f) = frames.pop() {
            rest.push_front(f);
            assert(frames@ =~= all.take(n - 1));
            assert(rest@ =~= all.skip(n - 1));
        }
    }
    assert(rest@ =~= all);
    let ghost q = queue@;
    queue.append(&mut rest);
    assert(frame_models(queue@) =~= before + frame_models(all));
}

/// What the leader knows of a follower.
#[verifier::ext_equal]
pub ghost struct LinkModel {
    pub id: u64,
    pub addr: Seq<char>,
    /// The follower has acknowledged everything up to here.
    pub match_index: u64,
    /// The follower has committed everything up to here.
    pub committed_through: u64,
    pub alive: bool,
    /// What is still to be sent to it.
    pub queue: Seq<FrameModel>,
}

/// What a leader knows.
#[verifier::ext_equal]
pub ghost struct LeaderModel {
    pub commit_index: u64,
    pub links: Seq<LinkModel>,
    /// The followers that are taken to have failed.
    pub failed: Set<u64>,
}

struct FollowerLink {
    id: u64,
    addr: String,
    match_index: u64,
    committed_through: u64,
    alive: bool,
    queue: VecDeque<Frame>,
}

impl View for FollowerLink {
    type V = LinkModel;

    closed spec fn view(&self) -> LinkModel {
        LinkModel {
            id: self.id,
            addr: self.addr@,
            match_index: self.match_index,
            committed_through: self.committed_through,
            alive: self.alive,
            queue: frame_models(self.queue@),
        }
    }
}

spec fn link_models(links: Seq<FollowerLink>) -> Seq<LinkModel> {
    links.map_values(|f: FollowerLink| f@)
}

/// A follower that was not heard of yet.
pub open spec fn new_link(id: u64, addr: Seq<char>) -> LinkModel {
    LinkModel {
        id,
        addr,
        match_index: 0,
        committed_through: 0,
        alive: false,
        queue: Seq::empty(),
    }
}

/// Links to the peers of node `id`, whose addresses are `peers`.
pub open spec fn links_to(peers: Seq<String>, id: u64) -> Seq<LinkModel>
    decreases peers.len(),
{
    if peers.len() == 0 {
        Seq::empty()
    } else {
        let rest = links_to(peers.drop_last(), id);
        let i = peers.len() - 1;
        if i == id {
            rest
        } else {
            rest.push(new_link(i as u64, peers.last()@))
        }
    }
}

/// How many nodes have acknowledged everything up to `lsn`, counting the
/// leader.
pub open spec fn acks(links: Seq<LinkModel>, lsn: u64) -> nat
    decreases links.len(),
{
    if links.len() == 0 {
        1
    } else {
        acks(links.drop_last(), lsn) + if links.last().match_index >= lsn {
            1nat
        } else {
            0
        }
    }
}

/// How many nodes can be reached, counting the leader.
pub open spec fn reachable(links: Seq<LinkModel>) -> nat
    decreases links.len(),
{
    if links.len() == 0 {
        1
    } else {
        reachable(links.drop_last()) + if links.last().alive {
            1nat
        } else {
            0
        }
    }
}

/// The smallest commit that all of `links` have reached.
pub open spec fn lowest(links: Seq<LinkModel>) -> u64
    decreases links.len(),
{
    if links.len() == 0 {
        u64::MAX
    } else {
        let rest = lowest(links.drop_last());
        if links.last().committed_through < rest {
            links.last().committed_through
        } else {
            rest
        }
    }
}

/// The frame that replicates a record. The value of a put goes with it.
pub open spec fn append_frame(l: Logged, value: Option<Seq<u8>>) -> FrameModel {
    FrameModel::Append {
        lsn: l.0,
        rec: l.1,
        data: if l.1 is Put {
            value
        } else {
            None
        },
    }
}

/// The frames that replicate `records`, with a barrier behind them.
pub open spec fn batch(records: Seq<Logged>, value: Option<Seq<u8>>, end: u64) -> Seq<FrameModel> {
    records.map_values(|l: Logged| append_frame(l, value)).push(
        FrameModel::SyncBarrier { lsn: end },
    )
}

/// The LSN of a frame that replicates something.
pub open spec fn frame_lsn(f: FrameModel) -> Option<u64> {
    match f {
        FrameModel::Append { lsn, .. } => Some(lsn),
        FrameModel::SyncBarrier { lsn } => Some(lsn),
        _ => None,
    }
}

/// The frames of a queue that lie behind `commit`.
pub open spec fn retained(queue: Seq<FrameModel>, commit: u64) -> Seq<FrameModel>
    decreases queue.len(),
{
    if queue.len() == 0 {
        Seq::empty()
    } else {
        let rest = retained(queue.drop_last(), commit);
        match frame_lsn(queue.last()) {
            Some(lsn) => if lsn > commit {
                rest.push(queue.last())
            } else {
                rest
            },
            None => rest,
        }
    }
}

/// The records of `log` from `from` to `commit`.
pub open spec fn between(log: Seq<Logged>, from: u64, commit: u64) -> Seq<Logged>
    decreases log.len(),
{
    if log.len() == 0 {
        Seq::empty()
    } else {
        let rest = between(log.drop_last(), from, commit);
        if from <= log.last().0 <= commit {
            rest.push(log.last())
        } else {
            rest
        }
    }
}

/// The frames of a backfill with `records`, whose puts wrote `values`, up to
/// `commit`.
pub open spec fn backfill_frames(
    records: Seq<Logged>,
    values: Seq<Option<Seq<u8>>>,
    commit: u64,
) -> Seq<FrameModel> {
    Seq::new(records.len(), |i: int| append_frame(records[i], values[i])).push(
        FrameModel::SyncBarrier { lsn: commit },
    )
}

/// Every put among `records` has its value.
pub open spec fn values_known(records: Seq<Logged>, values: Seq<Option<Seq<u8>>>) -> bool {
    forall|i: int|
        0 <= i < records.len() && (#[trigger] records[i]).1 is Put ==> values[i] is Some
}

impl LeaderModel {
    /// A leader with the peers `peers`, itself number `id`, that has just
    /// started and gives out `next_lsn` next. All that is below is committed.
    pub open spec fn started(peers: Seq<String>, id: u64, next_lsn: u64) -> LeaderModel {
        LeaderModel {
            commit_index: (next_lsn - 1) as u64,
            links: links_to(peers, id),
            failed: Set::empty(),
        }
    }

    /// The connection to follower `i` is up or down.
    pub open spec fn linked(self, i: int, alive: bool) -> LeaderModel {
        LeaderModel {
            links: self.links.update(i, LinkModel { alive, ..self.links[i] }),
            ..self
        }
    }

    /// The frame that is to be sent to follower `i` next.
    pub open spec fn next_for(self, i: int) -> Option<FrameModel> {
        if self.links[i].queue.len() > 0 {
            Some(self.links[i].queue[0])
        } else {
            None
        }
    }

    /// The next frame for follower `i` has been taken, if there was one.
    pub open spec fn sent(self, i: int) -> LeaderModel {
        let f = self.links[i];
        if f.queue.len() > 0 {
            LeaderModel {
                links: self.links.update(i, LinkModel { queue: f.queue.skip(1), ..f }),
                ..self
            }
        } else {
            self
        }
    }

    /// The records out of `log` that a follower is to be sent that asks for
    /// everything from `from` on, and the commit that they end with.
    pub open spec fn backfill_of(self, log: Seq<Logged>, from: u64) -> (Seq<Logged>, u64) {
        (between(log, from, self.commit_index), self.commit_index)
    }

    /// A backfill with `records`, whose puts wrote `values`, up to `commit`,
    /// is on its way to follower `i`.
    pub open spec fn refilled(
        self,
        i: int,
        records: Seq<Logged>,
        values: Seq<Option<Seq<u8>>>,
        commit: u64,
    ) -> LeaderModel {
        let f = self.links[i];
        LeaderModel {
            links: self.links.update(
                i,
                LinkModel {
                    queue: backfill_frames(records, values, commit) + retained(f.queue, commit),
                    ..f
                },
            ),
            ..self
        }
    }

    /// How many nodes make a majority, counting the leader.
    pub open spec fn quorum(self) -> nat {
        (self.links.len() + 1) / 2 + 1
    }

    /// Records are on their way to every follower.
    pub open spec fn shipped(
        self,
        records: Seq<Logged>,
        value: Option<Seq<u8>>,
        end: u64,
    ) -> LeaderModel {
        LeaderModel {
            links: self.links.map_values(
                |f: LinkModel| LinkModel { queue: f.queue + batch(records, value, end), ..f },
            ),
            ..self
        }
    }

    /// A commit of everything up to `end` is in the log at `block`.
    pub open spec fn decided(self, end: u64, block: u64) -> LeaderModel {
        LeaderModel { commit_index: block, ..self }.shipped(
            seq![(block, RecordModel::Commit { lsn: end })],
            None,
            block,
        )
    }

    /// Follower `i` has acknowledged everything up to `lsn`.
    pub open spec fn acked(self, i: int, lsn: u64) -> LeaderModel {
        let f = self.links[i];
        LeaderModel {
            links: self.links.update(
                i,
                LinkModel {
                    match_index: if lsn > f.match_index {
                        lsn
                    } else {
                        f.match_index
                    },
                    committed_through: if lsn >= self.commit_index {
                        self.commit_index
                    } else {
                        f.committed_through
                    },
                    ..f
                },
            ),
            ..self
        }
    }

    /// Puts up to here may be forgotten: every follower has committed them.
    pub open spec fn horizon(self) -> u64 {
        if self.links.len() == 0 {
            self.commit_index
        } else {
            lowest(self.links)
        }
    }

    /// A client has sent `frame`.
    pub open spec fn told(self, frame: FrameModel) -> LeaderModel {
        match frame {
            FrameModel::SimulateFailure { node_id } => self.without(node_id),
            _ => self,
        }
    }

    /// Follower `node_id` is taken to have failed.
    pub open spec fn without(self, node_id: u64) -> LeaderModel {
        LeaderModel {
            failed: self.failed.insert(node_id),
            links: self.links.map_values(
                |f: LinkModel|
                    LinkModel {
                        alive: if f.id == node_id {
                            false
                        } else {
                            f.alive
                        },
                        ..f
                    },
            ),
            ..self
        }
    }
}

/// A change that the leader tries to have accepted by a majority.
pub enum Proposal {
    /// Its records are in the leader's log. Next: sync the log.
    Logged { records: Vec<(Lsn, Record)>, value: Option<Vec<u8>>, end: Lsn },
    /// The records are on their way. Next: see who has them.
    Shipped { end: Lsn },
    /// A majority has acknowledged them. Next: commit.
    Agreed { end: Lsn },
    /// It is committed. Next: reply.
    Decided { end: Lsn, block: Lsn },
    /// It failed. Next: reply.
    Refused { msg: String },
}

/// What a [`Proposal`] says.
#[verifier::ext_equal]
pub ghost enum ProposalModel {
    Logged { records: Seq<Logged>, value: Option<Seq<u8>>, end: u64 },
    Shipped { end: u64 },
    Agreed { end: u64 },
    Decided { end: u64, block: u64 },
    Refused { msg: Seq<char> },
}

impl View for Proposal {
    type V = ProposalModel;

    open spec fn view(&self) -> ProposalModel {
        match self {
            Proposal::Logged { records, value, end } => ProposalModel::Logged {
                records: logged_models(records@),
                value: bytes_of(*value),
                end: *end,
            },
            Proposal::Shipped { end } => ProposalModel::Shipped { end: *end },
            Proposal::Agreed { end } => ProposalModel::Agreed { end: *end },
            Proposal::Decided { end, block } => ProposalModel::Decided {
                end: *end,
                block: *block,
            },
            Proposal::Refused { msg } => ProposalModel::Refused { msg: msg@ },
        }
    }
}

/// What came of a step of a proposal.
pub enum Outcome {
    /// Syncing the log.
    Synced(Result<(), StoreError>),
    /// Waiting for acknowledgements; the time for them may be over.
    Polled { expired: bool },
    /// Committing; the LSN is that of the commit record.
    Committed(Result<Lsn, StoreError>),
}

/// What an [`Outcome`] says.
pub ghost enum OutcomeModel {
    Synced(Result<(), ErrorModel>),
    Polled { expired: bool },
    Committed(Result<u64, ErrorModel>),
}

impl View for Outcome {
    type V = OutcomeModel;

    open spec fn view(&self) -> OutcomeModel {
        match self {
            Outcome::Synced(Ok(())) => OutcomeModel::Synced(Ok(())),
            Outcome::Synced(Err(e)) => OutcomeModel::Synced(Err(e@)),
            Outcome::Polled { expired } => OutcomeModel::Polled { expired: *expired },
            Outcome::Committed(Ok(block)) => OutcomeModel::Committed(Ok(*block)),
            Outcome::Committed(Err(e)) => OutcomeModel::Committed(Err(e@)),
        }
    }
}

/// What is proposed once `records`, of a put of `value` or of another change,
/// are in the log.
pub open spec fn proposed(records: Seq<Logged>, value: Option<Seq<u8>>) -> ProposalModel {
    ProposalModel::Logged { records, value, end: records.last().0 }
}

/// A proposal that failed with `e`.
pub open spec fn refused_for(p: ProposalModel, e: ErrorModel) -> bool {
    p matches ProposalModel::Refused { msg } && worded(e, msg)
}

/// `(l2, p2)` is what `o` makes of the leader `l` and its proposal `p`. An
/// outcome that does not belong to the step leaves both as they are.
pub open spec fn advances(
    l: LeaderModel,
    p: ProposalModel,
    o: OutcomeModel,
    l2: LeaderModel,
    p2: ProposalModel,
) -> bool {
    match (p, o) {
        (ProposalModel::Logged { records, value, end }, OutcomeModel::Synced(Ok(()))) => l2
            == l.shipped(records, value, end) && p2 == (ProposalModel::Shipped { end }),
        (ProposalModel::Logged { .. }, OutcomeModel::Synced(Err(e))) => l2 == l && refused_for(
            p2,
            e,
        ),
        (ProposalModel::Shipped { end }, OutcomeModel::Polled { expired }) => l2 == l && p2 == (
        if acks(l.links, end) >= l.quorum() {
            ProposalModel::Agreed { end }
        } else if reachable(l.links) < l.quorum() && expired {
            ProposalModel::Refused { msg: "quorum lost"@ }
        } else {
            p
        }),
        (ProposalModel::Agreed { end }, OutcomeModel::Committed(Ok(block))) => l2 == l.decided(
            end,
            block,
        ) && p2 == (ProposalModel::Decided { end, block }),
        (ProposalModel::Agreed { .. }, OutcomeModel::Committed(Err(e))) => l2 == l && refused_for(
            p2,
            e,
        ),
        _ => l2 == l && p2 == p,
    }
}

/// What a request of a client asks for.
pub enum Work {
    /// Stage a put, and propose it.
    Put { id: u64, key: String, value: Vec<u8> },
    /// Read what was put at or below `upto`.
    Get { id: u64, key: String, upto: Lsn },
    /// Compact what lies at or below `horizon`, and propose it.
    Compact { horizon: Lsn },
    List { id: u64, prefix: String },
    Capacity { id: u64, prefix: String },
    Reply(Frame),
    Nothing,
}

/// What [`Work`] says.
#[verifier::ext_equal]
pub ghost enum WorkModel {
    Put { id: u64, key: Seq<char>, value: Seq<u8> },
    Get { id: u64, key: Seq<char>, upto: u64 },
    Compact { horizon: u64 },
    List { id: u64, prefix: Seq<char> },
    Capacity { id: u64, prefix: Seq<char> },
    Reply(FrameModel),
    Nothing,
}

impl View for Work {
    type V = WorkModel;

    open spec fn view(&self) -> WorkModel {
        match self {
            Work::Put { id, key, value } => WorkModel::Put { id: *id, key: key@, value: value@ },
            Work::Get { id, key, upto } => WorkModel::Get { id: *id, key: key@, upto: *upto },
            Work::Compact { horizon } => WorkModel::Compact { horizon: *horizon },
            Work::List { id, prefix } => WorkModel::List { id: *id, prefix: prefix@ },
            Work::Capacity { id, prefix } => WorkModel::Capacity { id: *id, prefix: prefix@ },
            Work::Reply(f) => WorkModel::Reply(f@),
            Work::Nothing => WorkModel::Nothing,
        }
    }
}

/// What `frame`, from a client, asks of the leader `l`.
pub open spec fn work_for(l: LeaderModel, frame: FrameModel, fsyncs: u64) -> WorkModel {
    match frame {
        FrameModel::PutReq { id, key, value } => WorkModel::Put { id, key, value },
        FrameModel::GetReq { id, key } => WorkModel::Get { id, key, upto: l.commit_index },
        FrameModel::StatusReq => WorkModel::Reply(
            FrameModel::StatusOk {
                commit_index: l.commit_index,
                matches: l.links.map_values(|f: LinkModel| (f.id, f.match_index)),
            },
        ),
        FrameModel::ProbeFsync => WorkModel::Reply(FrameModel::ProbeFsyncResp { count: fsyncs }),
        FrameModel::Compact => WorkModel::Compact { horizon: l.horizon() },
        FrameModel::ListReq { id, prefix } => WorkModel::List { id, prefix },
        FrameModel::CapacityReq { id, prefix } => WorkModel::Capacity { id, prefix },
        FrameModel::SimulateFailure { .. } => WorkModel::Reply(FrameModel::SimulateFailureDone),
        _ => WorkModel::Nothing,
    }
}

/// The records of a backfill, and the commit that it ends with.
pub struct Backfill {
    pub records: Vec<(Lsn, Record)>,
    pub commit: Lsn,
}

/// The values that go with the records of a backfill.
pub open spec fn value_models(values: Seq<Option<Vec<u8>>>) -> Seq<Option<Seq<u8>>> {
    values.map_values(|v: Option<Vec<u8>>| bytes_of(v))
}

pub struct Leader {
    commit_index: Lsn,
    followers: Vec<FollowerLink>,
    failed: BTreeSet<u64>,
    quorum: u64,
}

impl View for Leader {
    type V = LeaderModel;

    closed spec fn view(&self) -> LeaderModel {
        LeaderModel {
            commit_index: self.commit_index,
            links: link_models(self.followers@),
            failed: self.failed@,
        }
    }
}

fn copy_bytes(bytes: &[u8]) -> (copy: Vec<u8>)
    ensures
        copy@ == bytes@,
{
    let mut copy: Vec<u8> = Vec::new();
    copy.extend_from_slice(bytes);
    assert(copy@ =~= bytes@);
    copy
}

/// The frames that replicate `records`, with a barrier behind them.
fn batch_frames(records: &[(Lsn, Record)], value: Option<&[u8]>, end: Lsn) -> (frames: Vec<Frame>)
    ensures
        frame_models(frames@) == batch(
            logged_models(records@),
            match value {
                Some(v) => Some(v@),
                None => None,
            },
            end,
        ),
{
    let ghost shown = match value {
        Some(v) => Some(v@),
        None => None,
    };
    let ghost models = logged_models(records@).map_values(|l: Logged| append_frame(l, shown));
    let mut frames: Vec<Frame> = Vec::new();
    for i in 0..records.len()
        invariant
            shown == (match value {
                Some(v) => Some(v@),
                None => None,
            }),
            models == logged_models(records@).map_values(|l: Logged| append_frame(l, shown)),
            frame_models(frames@) == models.take(i as int),
    {
        let ghost before = frames@;
        let rec = records[i].1.copy();
        let data: Option<Vec<u8>> = match (&rec, value) {
            (Record::Put { .. }, Some(v)) => Some(copy_bytes(v)),
            _ => None,
        };
        let frame = Frame::Append { lsn: records[i].0, rec, data };
        assert(frame@ == models[i as int]);
        frames.push(frame);
        assert(frame_models(frames@) =~= frame_models(before).push(models[i as int]));
        assert(models.take(i + 1) =~= models.take(i as int).push(models[i as int]));
    }
    assert(models.take(records@.len() as int) =~= models);
    let ghost before = frames@;
    let barrier = Frame::SyncBarrier { lsn: end };
    frames.push(barrier);
    assert(frame_models(frames@) =~= frame_models(before).push(barrier@));
    frames
}

impl Leader {
    pub closed spec fn wf(&self) -> bool {
        self.quorum == self@.quorum()
    }

    /// A leader whose log goes on with `next_lsn`. It has heard of no follower
    /// yet.
    pub fn new(cfg: &Config, next_lsn: Lsn) -> (l: Leader)
        requires
            next_lsn >= 1,
        ensures
            l.wf(),
            l@ == LeaderModel::started(cfg.peers@, cfg.id, next_lsn),
    {
        let mut followers: Vec<FollowerLink> = Vec::new();
        let n: usize = cfg.peers.len();
        assert(cfg.peers@.take(0) =~= Seq::empty());
        for i in 0..n
            invariant
                n == cfg.peers@.len(),
                followers@.len() <= i,
                link_models(followers@) == links_to(cfg.peers@.take(i as int), cfg.id),
        {
            let ghost before = followers@;
            let ghost seen = cfg.peers@.take(i + 1);
            assert(seen.drop_last() =~= cfg.peers@.take(i as int));
            if i as u64 != cfg.id {
                let link = FollowerLink {
                    id: i as u64,
                    addr: cfg.peers[i].clone(),
                    match_index: 0,
                    committed_through: 0,
                    alive: false,
                    queue: VecDeque::new(),
                };
                assert(link@ =~= new_link(i as u64, cfg.peers@[i as int]@));
                followers.push(link);
                assert(link_models(followers@) =~= link_models(before).push(link@));
            }
        }
        assert(cfg.peers@.take(n as int) =~= cfg.peers@);
        let others: u64 = followers.len() as u64;
        let quorum: u64 = others / 2 + others % 2 + 1;
        Leader { commit_index: next_lsn - 1, followers, failed: BTreeSet::new(), quorum }
    }

    pub fn commit_index(&self) -> (lsn: Lsn)
        ensures
            lsn == self@.commit_index,
    {
        self.commit_index
    }

    pub fn follower_count(&self) -> (n: usize)
        ensures
            n == self@.links.len(),
    {
        self.followers.len()
    }

    /// The number and the address of follower `i`.
    pub fn follower(&self, i: usize) -> (f: (u64, &String))
        requires
            i < self@.links.len(),
        ensures
            f.0 == self@.links[i as int].id,
            f.1@ == self@.links[i as int].addr,
    {
        let f: &FollowerLink = &self.followers[i];
        assert(link_models(self.followers@)[i as int] == f@);
        (f.id, &f.addr)
    }

    /// Follower `id` is taken to have failed.
    pub fn is_failed(&self, id: u64) -> (failed: bool)
        ensures
            failed == self@.failed.contains(id),
    {
        self.failed.contains(&id)
    }

    /// The connection to follower `i` is up or down.
    pub fn set_alive(&mut self, i: usize, alive: bool)
        requires
            old(self).wf(),
            i < old(self)@.links.len(),
        ensures
            final(self).wf(),
            final(self)@ == old(self)@.linked(i as int, alive),
    {
        let ghost before = self.followers@;
        self.followers[i].alive = alive;
        assert(link_models(self.followers@) =~= link_models(before).update(
            i as int,
            LinkModel { alive, ..before[i as int]@ },
        ));
    }

    /// The next frame that is to be sent to follower `i`.
    pub fn next_frame(&mut self, i: usize) -> (frame: Option<Frame>)
        requires
            old(self).wf(),
            i < old(self)@.links.len(),
        ensures
            final(self).wf(),
            old(self)@.next_for(i as int) == (match frame {
                Some(f) => Some(f@),
                None => None,
            }),
            final(self)@ == old(self)@.sent(i as int),
    {
        let ghost before = self.followers@;
        let ghost f = before[i as int]@;
        assert(link_models(before)[i as int] == f);
        let frame = self.followers[i].queue.pop_front();
        proof {
            let after = self.followers@;
            if frame is Some {
                assert(frame_models(after[i as int].queue@) =~= f.queue.skip(1));
                assert(link_models(after) =~= link_models(before).update(
                    i as int,
                    LinkModel { queue: f.queue.skip(1), ..f },
                ));
            } else {
                assert(after[i as int]@ =~= f);
                assert(link_models(after) =~= link_models(before));
            }
        }
        frame
    }

    /// Sends records to every follower, with a barrier behind them.
    pub fn send_batch(&mut self, records: &[(Lsn, Record)], value: Option<&[u8]>, end: Lsn)
        requires
            old(self).wf(),
        ensures
            final(self).wf(),
            final(self)@ == old(self)@.shipped(
                logged_models(records@),
                match value {
                    Some(v) => Some(v@),
                    None => None,
                },
                end,
            ),
    {
        let ghost shown = match value {
            Some(v) => Some(v@),
            None => None,
        };
        let ghost sent = batch(logged_models(records@), shown, end);
        let ghost before = self.followers@;
        let ghost whole = *self;
        let n: usize = self.followers.len();
        for i in 0..n
            invariant
                n == before.len(),
                self.followers@.len() == n,
                self.commit_index == whole.commit_index,
                self.failed == whole.failed,
                self.quorum == whole.quorum,
                whole.followers@ == before,
                shown == (match value {
                    Some(v) => Some(v@),
                    None => None,
                }),
                sent == batch(logged_models(records@), shown, end),
                forall|j: int|
                    0 <= j < n ==> (#[trigger] self.followers@[j])@ == (if j < i {
                        LinkModel { queue: before[j]@.queue + sent, ..before[j]@ }
                    } else {
                        before[j]@
                    }),
        {
            let frames = batch_frames(records, value, end);
            let ghost f = self.followers@[i as int]@;
            enqueue(&mut self.followers[i].queue, frames);
            assert(self.followers@[i as int]@ =~= LinkModel { queue: f.queue + sent, ..f });
        }
        assert(self@ =~= whole@.shipped(logged_models(records@), shown, end));
    }

    /// A change whose records are in the log, the last at `end`.
    pub fn propose(records: Vec<(Lsn, Record)>, value: Option<Vec<u8>>) -> (p: Proposal)
        requires
            records@.len() > 0,
        ensures
            p@ == proposed(logged_models(records@), bytes_of(value)),
    {
        let end: Lsn = records[records.len() - 1].0;
        Proposal::Logged { records, value, end }
    }

    /// How many followers have acknowledged everything up to `lsn`.
    fn acks(&self, lsn: Lsn) -> (n: u64)
        ensures
            n + 1 == acks(self@.links, lsn),
    {
        let mut n: u64 = 0;
        let total: usize = self.followers.len();
        let ghost links = self@.links;
        assert(links.take(0) =~= Seq::empty());
        for i in 0..total
            invariant
                total == self.followers@.len(),
                links == link_models(self.followers@),
                n <= i,
                n + 1 == acks(links.take(i as int), lsn),
        {
            assert(links.take(i + 1).drop_last() =~= links.take(i as int));
            assert(links[i as int] == self.followers@[i as int]@);
            if self.followers[i].match_index >= lsn {
                n = n + 1;
            }
        }
        assert(links.take(total as int) =~= links);
        n
    }

    /// How many followers can be reached.
    fn reachable(&self) -> (n: u64)
        ensures
            n + 1 == reachable(self@.links),
    {
        let mut n: u64 = 0;
        let total: usize = self.followers.len();
        let ghost links = self@.links;
        assert(links.take(0) =~= Seq::empty());
        for i in 0..total
            invariant
                total == self.followers@.len(),
                links == link_models(self.followers@),
                n <= i,
                n + 1 == reachable(links.take(i as int)),
        {
            assert(links.take(i + 1).drop_last() =~= links.take(i as int));
            assert(links[i as int] == self.followers@[i as int]@);
            if self.followers[i].alive {
                n = n + 1;
            }
        }
        assert(links.take(total as int) =~= links);
        n
    }

    /// Takes a proposal one step further, after `o`.
    pub fn advance(&mut self, p: Proposal, o: Outcome) -> (next: Proposal)
        requires
            old(self).wf(),
        ensures
            final(self).wf(),
            advances(old(self)@, p@, o@, final(self)@, next@),
    {
        match (p, o) {
            (Proposal::Logged { records, value, end }, Outcome::Synced(res)) => match res {
                Ok(()) => {
                    match &value {
                        Some(v) => self.send_batch(records.as_slice(), Some(v.as_slice()), end),
                        None => self.send_batch(records.as_slice(), None, end),
                    }
                    Proposal::Shipped { end }
                },
                Err(e) => Proposal::Refused { msg: e.message() },
            },
            (Proposal::Shipped { end }, Outcome::Polled { expired }) => {
                if self.acks(end) >= self.quorum - 1 {
                    Proposal::Agreed { end }
                } else if self.reachable() < self.quorum - 1 && expired {
                    Proposal::Refused { msg: "quorum lost".to_string() }
                } else {
                    Proposal::Shipped { end }
                }
            },
            (Proposal::Agreed { end }, Outcome::Committed(res)) => match res {
                Ok(block) => {
                    self.commit_index = block;
                    let records: Vec<(Lsn, Record)> = vec![(block, Record::Commit { lsn: end })];
                    assert(logged_models(records@) =~= seq![
                        (block, RecordModel::Commit { lsn: end }),
                    ]);
                    self.send_batch(records.as_slice(), None, block);
                    Proposal::Decided { end, block }
                },
                Err(e) => Proposal::Refused { msg: e.message() },
            },
            (p, _) => p,
        }
    }

    /// Follower `i` acknowledges everything up to `lsn`.
    pub fn sync_ack(&mut self, i: usize, lsn: Lsn)
        requires
            old(self).wf(),
            i < old(self)@.links.len(),
        ensures
            final(self).wf(),
            final(self)@ == old(self)@.acked(i as int, lsn),
    {
        let ghost before = self.followers@;
        let ghost f = before[i as int]@;
        assert(link_models(before)[i as int] == f);
        if lsn > self.followers[i].match_index {
            self.followers[i].match_index = lsn;
        }
        if lsn >= self.commit_index {
            self.followers[i].committed_through = self.commit_index;
        }
        assert(self@ =~= old(self)@.acked(i as int, lsn));
    }

    /// Puts up to here may be forgotten: every follower has committed them.
    pub fn horizon(&self) -> (lsn: Lsn)
        ensures
            lsn == self@.horizon(),
    {
        let total: usize = self.followers.len();
        if total == 0 {
            return self.commit_index;
        }
        let mut low: u64 = u64::MAX;
        let ghost links = self@.links;
        assert(links.take(0) =~= Seq::empty());
        for i in 0..total
            invariant
                total == self.followers@.len(),
                links == link_models(self.followers@),
                low == lowest(links.take(i as int)),
        {
            assert(links.take(i + 1).drop_last() =~= links.take(i as int));
            assert(links[i as int] == self.followers@[i as int]@);
            if self.followers[i].committed_through < low {
                low = self.followers[i].committed_through;
            }
        }
        assert(links.take(total as int) =~= links);
        low
    }

    /// The followers with what they have acknowledged.
    fn matches(&self) -> (pairs: Vec<(u64, u64)>)
        ensures
            pairs@ == self@.links.map_values(|f: LinkModel| (f.id, f.match_index)),
    {
        let mut pairs: Vec<(u64, u64)> = Vec::new();
        let ghost all = self@.links.map_values(|f: LinkModel| (f.id, f.match_index));
        for i in 0..self.followers.len()
            invariant
                all == link_models(self.followers@).map_values(
                    |f: LinkModel| (f.id, f.match_index),
                ),
                pairs@ == all.take(i as int),
        {
            let f: &FollowerLink = &self.followers[i];
            assert(link_models(self.followers@)[i as int] == f@);
            pairs.push((f.id, f.match_index));
            assert(all.take(i + 1) =~= all.take(i as int).push(all[i as int]));
        }
        assert(pairs@ =~= all);
        pairs
    }

    /// Takes follower `node_id` to have failed.
    fn simulate_failure(&mut self, node_id: u64)
        requires
            old(self).wf(),
        ensures
            final(self).wf(),
            final(self)@ == old(self)@.without(node_id),
    {
        self.failed.insert(node_id);
        let ghost before = self.followers@;
        let ghost whole = *self;
        let n: usize = self.followers.len();
        for i in 0..n
            invariant
                n == before.len(),
                self.followers@.len() == n,
                self.commit_index == whole.commit_index,
                self.failed == whole.failed,
                self.quorum == whole.quorum,
                forall|j: int|
                    0 <= j < n ==> (#[trigger] self.followers@[j])@ == (if j < i {
                        LinkModel {
                            alive: if before[j]@.id == node_id {
                                false
                            } else {
                                before[j]@.alive
                            },
                            ..before[j]@
                        }
                    } else {
                        before[j]@
                    }),
        {
            assert(self.followers@[i as int]@ == before[i as int]@);
            if self.followers[i].id == node_id {
                self.followers[i].alive = false;
            }
        }
        assert(self@ =~= old(self)@.without(node_id));
    }

    /// What a request of a client asks for. `fsyncs` is the number of fsyncs
    /// so far.
    pub fn handle_client(&mut self, frame: Frame, fsyncs: u64) -> (work: Work)
        requires
            old(self).wf(),
        ensures
            final(self).wf(),
            work@ == work_for(old(self)@, frame@, fsyncs),
            final(self)@ == old(self)@.told(frame@),
    {
        match frame {
            Frame::PutReq { id, key, value } => Work::Put { id, key, value },
            Frame::GetReq { id, key } => Work::Get { id, key, upto: self.commit_index },
            Frame::StatusReq => Work::Reply(
                Frame::StatusOk { commit_index: self.commit_index, matches: self.matches() },
            ),
            Frame::ProbeFsync => Work::Reply(Frame::ProbeFsyncResp { count: fsyncs }),
            Frame::Compact => Work::Compact { horizon: self.horizon() },
            Frame::ListReq { id, prefix } => Work::List { id, prefix },
            Frame::CapacityReq { id, prefix } => Work::Capacity { id, prefix },
            Frame::SimulateFailure { node_id } => {
                self.simulate_failure(node_id);
                Work::Reply(Frame::SimulateFailureDone)
            },
            _ => Work::Nothing,
        }
    }

    /// The records that a follower that asks for everything from `from` on is
    /// to get. `records` are those of the leader's log.
    pub fn backfill(&self, records: Vec<(Lsn, Record)>, from: Lsn) -> (b: Backfill)
        ensures
            (logged_models(b.records@), b.commit) == self@.backfill_of(
                logged_models(records@),
                from,
            ),
    {
        let commit: Lsn = self.commit_index;
        let ghost log = logged_models(records@);
        let mut wanted: Vec<(Lsn, Record)> = Vec::new();
        assert(log.take(0) =~= Seq::empty());
        assert(logged_models(wanted@) =~= between(log.take(0), from, commit));
        for i in 0..records.len()
            invariant
                log == logged_models(records@),
                logged_models(wanted@) == between(log.take(i as int), from, commit),
        {
            let ghost before = wanted@;
            let lsn: Lsn = records[i].0;
            assert(log.take(i + 1).drop_last() =~= log.take(i as int));
            assert(log.take(i + 1).last() == log[i as int]);
            if from <= lsn && lsn <= commit {
                let rec = records[i].1.copy();
                wanted.push((lsn, rec));
                assert(logged_models(wanted@) =~= logged_models(before).push(log[i as int]));
            }
        }
        assert(log.take(records@.len() as int) =~= log);
        Backfill { records: wanted, commit }
    }

    /// Puts a backfill in front of what follower `i` is still to be sent.
    /// `values` are those of the puts. Frames at or below the commit that the
    /// backfill ends with are covered by it and dropped. Where the value of a
    /// put is missing, nothing is done.
    pub fn handle_backfill(
        &mut self,
        i: usize,
        b: Backfill,
        values: Vec<Option<Vec<u8>>>,
    ) -> (done: bool)
        requires
            old(self).wf(),
            i < old(self)@.links.len(),
            values@.len() == b.records@.len(),
        ensures
            final(self).wf(),
            done <==> values_known(logged_models(b.records@), value_models(values@)),
            !done ==> final(self)@ == old(self)@,
            done ==> final(self)@ == old(self)@.refilled(
                i as int,
                logged_models(b.records@),
                value_models(values@),
                b.commit,
            ),
    {
        let ghost recs = logged_models(b.records@);
        let ghost vals = value_models(values@);
        let ghost all = Seq::new(recs.len(), |j: int| append_frame(recs[j], vals[j]));
        let mut frames: Vec<Frame> = Vec::new();
        let n: usize = b.records.len();
        for j in 0..n
            invariant
                n == b.records@.len(),
                values@.len() == n,
                recs == logged_models(b.records@),
                vals == value_models(values@),
                all == Seq::new(recs.len(), |j: int| append_frame(recs[j], vals[j])),
                frame_models(frames@) == all.take(j as int),
                forall|t: int| 0 <= t < j && (#[trigger] recs[t]).1 is Put ==> vals[t] is Some,
                *self == *old(self),
                old(self).wf(),
        {
            let ghost before = frames@;
            let rec = b.records[j].1.copy();
            assert(recs[j as int] == (b.records@[j as int].0, b.records@[j as int].1@));
            assert(vals[j as int] == bytes_of(values@[j as int]));
            let data: Option<Vec<u8>> = match &rec {
                Record::Put { .. } => match &values[j] {
                    Some(v) => Some(copy_bytes(v.as_slice())),
                    None => {
                        assert(recs[j as int].1 is Put);
                        return false;
                    },
                },
                _ => None,
            };
            let frame = Frame::Append { lsn: b.records[j].0, rec, data };
            assert(frame@ == all[j as int]);
            frames.push(frame);
            assert(frame_models(frames@) =~= frame_models(before).push(all[j as int]));
            assert(all.take(j + 1) =~= all.take(j as int).push(all[j as int]));
        }
        assert(all.take(n as int) =~= all);
        let barrier = Frame::SyncBarrier { lsn: b.commit };
        let ghost before = frames@;
        frames.push(barrier);
        assert(frame_models(frames@) =~= frame_models(before).push(barrier@));
        let ghost links = self.followers@;
        let ghost f = links[i as int]@;
        assert(link_models(links)[i as int] == f);
        let mut queue: VecDeque<Frame> = VecDeque::new();
        assert(frame_models(queue@) =~= Seq::empty());
        enqueue(&mut queue, frames);
        let ghost front = frame_models(queue@);
        let ghost q = self.followers@[i as int].queue@;
        let mut old_queue: VecDeque<Frame> = VecDeque::new();
        std::mem::swap(&mut old_queue, &mut self.followers[i].queue);
        let ghost mut taken: int = 0;
        assert(frame_models(q).take(0) =~= Seq::empty());
        assert(q.skip(0) =~= q);
        assert(front + retained(frame_models(q).take(0), b.commit) =~= front);
        while old_queue.len() > 0
            invariant
                0 <= taken <= q.len(),
                old_queue@ == q.skip(taken),
                frame_models(queue@) == front + retained(frame_models(q).take(taken), b.commit),
            decreases old_queue@.len(),
        {
            if let Some(frame) = old_queue.pop_front() {
                let keep = match &frame {
                    Frame::Append { lsn, .. } => *lsn > b.commit,
                    Frame::SyncBarrier { lsn } => *lsn > b.commit,
                    _ => false,
                };
                let ghost before = queue@;
                proof {
                    assert(frame == q[taken]);
                    assert(frame_models(q).take(taken + 1).drop_last() =~= frame_models(q).take(
                        taken,
                    ));
                    assert(frame_models(q).take(taken + 1).last() == frame@);
                    assert(old_queue@ =~= q.skip(taken + 1));
                }
                if keep {
                    queue.push_back(frame);
                    assert(frame_models(queue@) =~= frame_models(before).push(frame@));
                    assert(front + retained(frame_models(q).take(taken + 1), b.commit)
                        =~= frame_models(queue@));
                }
                proof {
                    taken = taken + 1;
                }
            }
        }
        assert(frame_models(q).take(taken) =~= frame_models(q));
        self.followers[i].queue = queue;
        proof {
            let after = self.followers@;
            let g = LinkModel {
                queue: backfill_frames(recs, vals, b.commit) + retained(f.queue, b.commit),
                ..f
            };
            assert(front =~= backfill_frames(recs, vals, b.commit));
            assert(after[i as int]@ =~= g);
            assert(link_models(after) =~= link_models(links).update(i as int, g));
            assert(values_known(recs, vals));
        }
        true
    }
}

/// How a proposal ended: decided, or refused for a reason.
pub open spec fn ending(p: ProposalModel) -> Option<Result<(), Seq<char>>> {
    match p {
        ProposalModel::Decided { .. } => Some(Ok(())),
        ProposalModel::Refused { msg } => Some(Err(msg)),
        _ => None,
    }
}

/// The reason for which a change was refused, if it was.
pub open spec fn reason(res: Result<(), String>) -> Result<(), Seq<char>> {
    match res {
        Ok(()) => Ok(()),
        Err(msg) => Err(msg@),
    }
}

/// How a proposal ended, or the proposal if it has not.
pub fn ended(p: Proposal) -> (res: Result<Result<(), String>, Proposal>)
    ensures
        match res {
            Ok(end) => ending(p@) == Some(reason(end)),
            Err(q) => ending(p@) is None && q == p,
        },
{
    match p {
        Proposal::Decided { .. } => Ok(Ok(())),
        Proposal::Refused { msg } => Ok(Err(msg)),
        q => Err(q),
    }
}

/// The reply to a put, or to another change that was proposed.
pub open spec fn put_answer(id: u64, res: Result<(), Seq<char>>) -> FrameModel {
    match res {
        Ok(()) => FrameModel::PutOk { id },
        Err(msg) => FrameModel::PutErr { id, msg },
    }
}

/// The reply to a put, or to another change that was proposed.
pub fn put_reply(id: u64, res: Result<(), String>) -> (reply: Frame)
    ensures
        reply@ == put_answer(id, reason(res)),
{
    match res {
        Ok(()) => Frame::PutOk { id },
        Err(msg) => Frame::PutErr { id, msg },
    }
}

/// The reply to a get that found `value`, if anything.
pub open spec fn get_answer(id: u64, value: Option<Seq<u8>>) -> FrameModel {
    FrameModel::GetOk { id, value }
}

/// The reply to a get. One that fails finds nothing.
pub fn get_reply(id: u64, res: Result<Option<Vec<u8>>, StoreError>) -> (reply: Frame)
    ensures
        reply@ == get_answer(
            id,
            match res {
                Ok(value) => bytes_of(value),
                Err(_) => None,
            },
        ),
{
    match res {
        Ok(value) => Frame::GetOk { id, value },
        Err(_) => Frame::GetOk { id, value: None },
    }
}

/// The reply to a compaction.
pub open spec fn compact_answer(res: Result<u64, String>) -> FrameModel {
    FrameModel::CompactDone {
        freed: match res {
            Ok(freed) => freed,
            Err(_) => 0,
        },
    }
}

/// The reply to a compaction. One that fails frees nothing.
pub fn compact_reply(res: Result<u64, String>) -> (reply: Frame)
    ensures
        reply@ == compact_answer(res),
{
    match res {
        Ok(freed) => Frame::CompactDone { freed },
        Err(_) => Frame::CompactDone { freed: 0 },
    }
}

/// The lengths of all of `keys` together.
pub open spec fn total_len(keys: Seq<(String, u32)>) -> nat
    decreases keys.len(),
{
    if keys.len() == 0 {
        0
    } else {
        total_len(keys.drop_last()) + keys.last().1 as nat
    }
}

/// The reply to a question for the capacity.
pub open spec fn capacity_answer(id: u64, agg: Aggregate, keys: Seq<(String, u32)>) -> FrameModel {
    FrameModel::CapacityOk {
        id,
        aggregate: (agg.object_count, agg.byte_count),
        brute: (keys.len() as u64, total_len(keys) as u64),
    }
}

/// The reply to a question for the capacity: the aggregate that was kept, and
/// a recount of the keys.
pub fn capacity_reply(id: u64, agg: Aggregate, keys: &[(String, u32)]) -> (reply: Frame)
    requires
        total_len(keys@) <= u64::MAX,
    ensures
        reply@ == capacity_answer(id, agg, keys@),
{
    let n: usize = keys.len();
    let mut bytes: u64 = 0;
    assert(keys@.take(0) =~= Seq::empty());
    for i in 0..n
        invariant
            n == keys@.len(),
            total_len(keys@) <= u64::MAX,
            bytes == total_len(keys@.take(i as int)),
    {
        proof {
            assert(keys@.take(i + 1).drop_last() =~= keys@.take(i as int));
            lemma_total_of_front(keys@, i + 1);
        }
        bytes = bytes + keys[i].1 as u64;
    }
    assert(keys@.take(n as int) =~= keys@);
    Frame::CapacityOk {
        id,
        aggregate: (agg.object_count, agg.byte_count),
        brute: (n as u64, bytes),
    }
}

proof fn lemma_total_of_front(keys: Seq<(String, u32)>, i: int)
    requires
        0 <= i <= keys.len(),
    ensures
        total_len(keys.take(i)) <= total_len(keys),
    decreases keys.len(),
{
    if i < keys.len() {
        lemma_total_of_front(keys.drop_last(), i);
        assert(keys.drop_last().take(i) =~= keys.take(i));
    } else {
        assert(keys.take(i) =~= keys);
    }
}

/// What a follower is to do with a frame from the leader.
pub enum FollowerWork {
    /// Apply the record.
    Apply { lsn: Lsn, rec: Record, data: Option<Vec<u8>> },
    /// Sync everything, and acknowledge what was applied.
    Sync,
    Nothing,
}

/// What [`FollowerWork`] says.
#[verifier::ext_equal]
pub ghost enum FollowerModel {
    Apply { lsn: u64, rec: RecordModel, data: Option<Seq<u8>> },
    Sync,
    Nothing,
}

impl View for FollowerWork {
    type V = FollowerModel;

    open spec fn view(&self) -> FollowerModel {
        match self {
            FollowerWork::Apply { lsn, rec, data } => FollowerModel::Apply {
                lsn: *lsn,
                rec: rec@,
                data: bytes_of(*data),
            },
            FollowerWork::Sync => FollowerModel::Sync,
            FollowerWork::Nothing => FollowerModel::Nothing,
        }
    }
}

/// What a follower that has applied everything up to `applied_upto` is to do
/// with a frame from the leader.
pub open spec fn follower_work(frame: FrameModel, applied_upto: u64) -> FollowerModel {
    match frame {
        FrameModel::Append { lsn, rec, data } => if lsn <= applied_upto {
            FollowerModel::Nothing
        } else {
            FollowerModel::Apply { lsn, rec, data }
        },
        FrameModel::SyncBarrier { .. } => FollowerModel::Sync,
        _ => FollowerModel::Nothing,
    }
}

/// What a follower that has applied everything up to `applied_upto` is to do
/// with a frame from the leader. What it has applied it does not apply again,
/// be it committed or not. A leader sends its records in order (see
/// [`lemma_batch_in_order`] and [`lemma_backfill_in_order`]), so one at or below
/// `applied_upto` was sent before.
pub fn apply_step(frame: Frame, applied_upto: Lsn) -> (work: FollowerWork)
    ensures
        work@ == follower_work(frame@, applied_upto),
{
    match frame {
        Frame::Append { lsn, rec, data } => if lsn <= applied_upto {
            FollowerWork::Nothing
        } else {
            FollowerWork::Apply { lsn, rec, data }
        },
        Frame::SyncBarrier { .. } => FollowerWork::Sync,
        _ => FollowerWork::Nothing,
    }
}

/// Everything that a store holds is on disk.
pub open spec fn on_disk<F>(s: State<F>) -> bool {
    s.wal.buffered.len() == 0 && s.dirty == Set::<u64>::empty()
}

/// What a follower that has applied everything up to `applied_upto`, and has it
/// on disk, tells its leader.
pub open spec fn ack_of(applied_upto: u64) -> FrameModel {
    FrameModel::SyncAck { lsn: applied_upto }
}

/// A follower's acknowledgement: it has everything that it has applied on
/// disk, see [`lemma_synced_is_durable`](crate::quorum::lemma_synced_is_durable).
pub fn sync_ack_frame<F>(s: &Store<F>) -> (f: Frame)
    requires
        on_disk(s.state()),
    ensures
        f@ == ack_of(s.state().layout.applied_upto),
{
    Frame::SyncAck { lsn: s.applied_upto() }
}

/// What a follower that has applied everything up to `applied_upto` is to do
/// with a frame from the leader, over a connection that is open or not.
pub open spec fn stream_work(open: bool, frame: FrameModel, applied_upto: u64) -> FollowerModel {
    if open {
        follower_work(frame, applied_upto)
    } else {
        FollowerModel::Nothing
    }
}

/// Whether a connection is open after a step that went well or did not.
pub open spec fn stays_open(open: bool, well: bool) -> bool {
    open && well
}

/// What goes to the leader after a sync, if the connection is open.
pub open spec fn ack_due(open: bool, applied_upto: u64) -> Option<FrameModel> {
    if open {
        Some(ack_of(applied_upto))
    } else {
        None
    }
}

/// A follower's side of a connection to its leader. It is open until a record
/// is refused or a sync fails.
pub struct FollowerStream {
    open: bool,
}

impl FollowerStream {
    /// The connection is open.
    pub closed spec fn is_open(&self) -> bool {
        self.open
    }

    /// A leader has just connected. The first frame that goes to it asks for
    /// everything after the last durable commit.
    pub fn start<F>(s: &Store<F>) -> (res: (FollowerStream, Frame))
        requires
            s.state().durable_commit < u64::MAX,
        ensures
            res.0.is_open(),
            res.1@ == first_request(s.state()),
    {
        (FollowerStream { open: true }, need_from(s.last_commit_block()))
    }

    /// What is to be done with a frame from the leader.
    pub fn take<F>(&self, s: &Store<F>, frame: Frame) -> (work: FollowerWork)
        ensures
            work@ == stream_work(self.is_open(), frame@, s.state().layout.applied_upto),
    {
        if self.open {
            apply_step(frame, s.applied_upto())
        } else {
            FollowerWork::Nothing
        }
    }

    /// A record was applied, or refused. Gives whether the connection goes on.
    pub fn applied(&mut self, res: &Result<(), StoreError>) -> (open: bool)
        ensures
            final(self).is_open() == stays_open(old(self).is_open(), res is Ok),
            open == final(self).is_open(),
    {
        if res.is_err() {
            self.open = false;
        }
        self.open
    }

    /// Everything was synced, or not. Gives the acknowledgement, if one is
    /// due; without one the connection ends.
    pub fn synced<F>(&mut self, s: &Store<F>, res: &Result<(), StoreError>) -> (ack: Option<Frame>)
        requires
            res is Ok ==> on_disk(s.state()),
        ensures
            final(self).is_open() == stays_open(old(self).is_open(), res is Ok),
            ack_due(final(self).is_open(), s.state().layout.applied_upto) == (match ack {
                Some(f) => Some(f@),
                None => None,
            }),
    {
        if res.is_err() {
            self.open = false;
        }
        if self.open {
            Some(sync_ack_frame(s))
        } else {
            None
        }
    }
}

/// What a frame from a follower asks of the leader.
pub enum LinkWork {
    /// The follower acknowledges everything up to `lsn`.
    Ack { lsn: Lsn },
    /// The follower is to be sent everything from `from` on.
    Backfill { from: Lsn },
    Nothing,
}

/// What `frame`, from a follower, asks of the leader.
pub open spec fn link_work(frame: FrameModel) -> LinkWork {
    match frame {
        FrameModel::SyncAck { lsn } => LinkWork::Ack { lsn },
        FrameModel::NeedFrom { lsn } => LinkWork::Backfill { from: lsn },
        _ => LinkWork::Nothing,
    }
}

/// What a frame from a follower asks of the leader.
pub fn dialer_step(frame: Frame) -> (work: LinkWork)
    ensures
        work == link_work(frame@),
{
    match frame {
        Frame::SyncAck { lsn } => LinkWork::Ack { lsn },
        Frame::NeedFrom { lsn } => LinkWork::Backfill { from: lsn },
        _ => LinkWork::Nothing,
    }
}

/// What a follower whose last durable commit is at `commit` asks of a leader
/// that has just connected.
pub open spec fn asked_after(commit: u64) -> FrameModel {
    FrameModel::NeedFrom { lsn: (commit + 1) as u64 }
}

/// What a follower with the store `s` asks of a leader that has just connected.
pub open spec fn first_request<F>(s: State<F>) -> FrameModel {
    asked_after(s.durable_commit)
}

/// What a follower asks of a leader that has just connected.
pub fn need_from(last_commit_block: Lsn) -> (frame: Frame)
    requires
        last_commit_block < u64::MAX,
    ensures
        frame@ == asked_after(last_commit_block),
{
    Frame::NeedFrom { lsn: last_commit_block + 1 }
}

/// The frame is a leader's greeting.
pub fn is_leader(frame: &Frame) -> (yes: bool)
    ensures
        yes == greets_as_leader(frame@),
{
    match frame {
        Frame::Hello { role, .. } => *role == ROLE_LEADER,
        _ => false,
    }
}

/// A quorum is a majority of the leader and its followers.
pub proof fn lemma_quorum_is_majority(l: LeaderModel)
    ensures
        2 * l.quorum() > l.links.len() + 1,
        l.quorum() <= l.links.len() + 1,
{
}

/// The proposal `p` of the leader `l` becomes `p2` after `o`.
pub open spec fn step_taken(
    l: LeaderModel,
    p: ProposalModel,
    o: OutcomeModel,
    p2: ProposalModel,
) -> bool {
    exists|l2: LeaderModel| advances(l, p, o, l2, p2)
}

/// `steps` are those of one proposal. `seen` are the leader's states and the
/// outcomes that took it from one step to the next.
pub open spec fn takes_steps(
    seen: Seq<(LeaderModel, OutcomeModel)>,
    steps: Seq<ProposalModel>,
) -> bool {
    &&& steps.len() == seen.len() + 1
    &&& steps[0] is Logged
    &&& forall|i: int|
        0 <= i < seen.len() ==> step_taken(
            (#[trigger] seen[i]).0,
            steps[i],
            seen[i].1,
            steps[i + 1],
        )
}

/// A proposal is decided only after its log was synced, after a majority had
/// acknowledged it, and after its commit succeeded, in this order. See
/// [`lemma_decided_is_on_a_majority`](crate::quorum::lemma_decided_is_on_a_majority)
/// for what an acknowledgement is worth.
pub proof fn lemma_decided_means_acknowledged(
    seen: Seq<(LeaderModel, OutcomeModel)>,
    steps: Seq<ProposalModel>,
)
    requires
        takes_steps(seen, steps),
        steps.last() is Decided,
    ensures
        exists|a: int, b: int, c: int|
            #![trigger seen[a], seen[b], seen[c]]
            {
                &&& 0 <= a < b < c < seen.len()
                &&& seen[a].1 is Synced && seen[a].1->Synced_0 is Ok
                &&& acks(seen[b].0.links, steps.last()->Decided_end) >= seen[b].0.quorum()
                &&& seen[c].1 == OutcomeModel::Committed(
                    Ok::<u64, ErrorModel>(steps.last()->Decided_block),
                )
            },
{
    let n = seen.len() as int;
    let c = lemma_decided(seen, steps, n);
    let b = lemma_agreed(seen, steps, c);
    let a = lemma_shipped(seen, steps, b);
    assert(seen[a].1 is Synced);
    assert(seen[b].0 == seen[b].0);
    assert(seen[c].1 == seen[c].1);
}

proof fn lemma_decided(
    seen: Seq<(LeaderModel, OutcomeModel)>,
    steps: Seq<ProposalModel>,
    n: int,
) -> (c: int)
    requires
        takes_steps(seen, steps),
        0 <= n <= seen.len(),
        steps[n] is Decided,
    ensures
        0 <= c < n,
        steps[c] == (ProposalModel::Agreed { end: steps[n]->Decided_end }),
        seen[c].1 == OutcomeModel::Committed(Ok::<u64, ErrorModel>(steps[n]->Decided_block)),
    decreases n,
{
    assert(step_taken(seen[n - 1].0, steps[n - 1], seen[n - 1].1, steps[n]));
    if steps[n - 1] is Decided {
        assert(steps[n - 1] == steps[n]);
        lemma_decided(seen, steps, n - 1)
    } else {
        n - 1
    }
}

proof fn lemma_agreed(
    seen: Seq<(LeaderModel, OutcomeModel)>,
    steps: Seq<ProposalModel>,
    n: int,
) -> (b: int)
    requires
        takes_steps(seen, steps),
        0 <= n <= seen.len(),
        steps[n] is Agreed,
    ensures
        0 <= b < n,
        steps[b] is Shipped,
        acks(seen[b].0.links, steps[n]->Agreed_end) >= seen[b].0.quorum(),
    decreases n,
{
    assert(step_taken(seen[n - 1].0, steps[n - 1], seen[n - 1].1, steps[n]));
    if steps[n - 1] is Agreed {
        assert(steps[n - 1] == steps[n]);
        lemma_agreed(seen, steps, n - 1)
    } else {
        n - 1
    }
}

proof fn lemma_shipped(
    seen: Seq<(LeaderModel, OutcomeModel)>,
    steps: Seq<ProposalModel>,
    n: int,
) -> (a: int)
    requires
        takes_steps(seen, steps),
        0 <= n <= seen.len(),
        steps[n] is Shipped,
    ensures
        0 <= a < n,
        seen[a].1 is Synced && seen[a].1->Synced_0 is Ok,
    decreases n,
{
    assert(step_taken(seen[n - 1].0, steps[n - 1], seen[n - 1].1, steps[n]));
    if steps[n - 1] is Shipped {
        lemma_shipped(seen, steps, n - 1)
    } else {
        n - 1
    }
}

/// No follower is behind the horizon: what lies at or below it is committed
/// on every follower.
pub proof fn lemma_horizon_is_committed(l: LeaderModel, i: int)
    requires
        0 <= i < l.links.len(),
    ensures
        l.horizon() <= l.links[i].committed_through,
{
    lemma_lowest(l.links, i);
}

proof fn lemma_lowest(links: Seq<LinkModel>, i: int)
    requires
        0 <= i < links.len(),
    ensures
        lowest(links) <= links[i].committed_through,
    decreases links.len(),
{
    if i < links.len() - 1 {
        lemma_lowest(links.drop_last(), i);
    }
}

/// The LSNs of the frames of a queue do not go down, and lie behind `low`.
pub open spec fn in_order(queue: Seq<FrameModel>, low: u64) -> bool {
    &&& forall|i: int|
        0 <= i < queue.len() ==> (frame_lsn(#[trigger] queue[i]) matches Some(lsn) && lsn >= low)
    &&& forall|i: int, j: int|
        0 <= i < j < queue.len() ==> frame_lsn(#[trigger] queue[i]).unwrap() <= frame_lsn(
            #[trigger] queue[j],
        ).unwrap()
}

/// The LSNs of a log go up.
pub open spec fn rising(log: Seq<Logged>) -> bool {
    forall|i: int, j: int|
        0 <= i < j < log.len() ==> (#[trigger] log[i]).0 < (#[trigger] log[j]).0
}

proof fn lemma_between(log: Seq<Logged>, from: u64, commit: u64)
    requires
        rising(log),
    ensures
        rising(between(log, from, commit)),
        forall|i: int|
            0 <= i < between(log, from, commit).len() ==> from <= (#[trigger] between(
                log,
                from,
                commit,
            )[i]).0 <= commit && log.contains(between(log, from, commit)[i]),
    decreases log.len(),
{
    if log.len() > 0 {
        let front = log.drop_last();
        let rest = between(front, from, commit);
        lemma_between(front, from, commit);
        assert forall|i: int| 0 <= i < rest.len() implies (#[trigger] rest[i]).0 < log.last().0
            && log.contains(rest[i]) by {
            assert(front.contains(rest[i]));
            let j = choose|j: int| 0 <= j < front.len() && front[j] == rest[i];
            assert(log[j] == rest[i]);
            assert(log[j].0 < log[log.len() - 1].0);
        }
        assert(log[log.len() - 1] == log.last());
    }
}

proof fn lemma_retained(queue: Seq<FrameModel>, low: u64, commit: u64)
    requires
        in_order(queue, low),
    ensures
        in_order(retained(queue, commit), commit),
        forall|i: int|
            0 <= i < retained(queue, commit).len() ==> queue.contains(
                #[trigger] retained(queue, commit)[i],
            ),
    decreases queue.len(),
{
    if queue.len() > 0 {
        let front = queue.drop_last();
        let rest = retained(front, commit);
        lemma_retained(front, low, commit);
        assert(queue[queue.len() - 1] == queue.last());
        assert forall|i: int| 0 <= i < rest.len() implies frame_lsn(#[trigger] rest[i]).unwrap()
            <= frame_lsn(queue.last()).unwrap() && queue.contains(rest[i]) by {
            assert(front.contains(rest[i]));
            let j = choose|j: int| 0 <= j < front.len() && front[j] == rest[i];
            assert(queue[j] == rest[i]);
        }
    }
}

/// A batch that lies above what is queued keeps a follower's queue in LSN
/// order.
pub proof fn lemma_batch_in_order(
    queue: Seq<FrameModel>,
    low: u64,
    records: Seq<Logged>,
    value: Option<Seq<u8>>,
    end: u64,
)
    requires
        in_order(queue, low),
        rising(records),
        records.len() > 0,
        end == records.last().0,
        low <= records[0].0,
        forall|i: int|
            0 <= i < queue.len() ==> frame_lsn(#[trigger] queue[i]).unwrap() <= records[0].0,
    ensures
        in_order(queue + batch(records, value, end), low),
{
    let sent = batch(records, value, end);
    let all = queue + sent;
    assert forall|i: int| 0 <= i < sent.len() implies frame_lsn(#[trigger] sent[i]) is Some
        && records[0].0 <= frame_lsn(sent[i]).unwrap() <= end by {
        if i < records.len() {
            if i > 0 {
                assert(records[0].0 < records[i].0);
            }
            if i < records.len() - 1 {
                assert(records[i].0 < records[records.len() - 1].0);
            }
        } else if records.len() > 1 {
            assert(records[0].0 < records[records.len() - 1].0);
        }
    }
    assert forall|i: int, j: int| 0 <= i < j < all.len() implies frame_lsn(
        #[trigger] all[i],
    ).unwrap() <= frame_lsn(#[trigger] all[j]).unwrap() by {
        if j < queue.len() {
            assert(all[i] == queue[i] && all[j] == queue[j]);
        } else if i < queue.len() {
            assert(all[i] == queue[i] && all[j] == sent[j - queue.len()]);
        } else {
            let (x, y) = (i - queue.len(), j - queue.len());
            assert(all[i] == sent[x] && all[j] == sent[y]);
            if y < records.len() {
                assert(records[x].0 < records[y].0);
            }
        }
    }
    assert forall|i: int| 0 <= i < all.len() implies (frame_lsn(#[trigger] all[i]) matches Some(lsn)
        && lsn >= low) by {
        if i < queue.len() {
            assert(all[i] == queue[i]);
        } else {
            assert(all[i] == sent[i - queue.len()]);
        }
    }
}

/// A backfill keeps a follower's queue in LSN order: first the records that
/// the follower missed, then what lies behind the commit that they end with.
pub proof fn lemma_backfill_in_order(
    log: Seq<Logged>,
    values: Seq<Option<Seq<u8>>>,
    queue: Seq<FrameModel>,
    low: u64,
    from: u64,
    commit: u64,
)
    requires
        rising(log),
        in_order(queue, low),
        from <= commit,
    ensures
        in_order(
            backfill_frames(between(log, from, commit), values, commit) + retained(queue, commit),
            from,
        ),
{
    lemma_between(log, from, commit);
    lemma_retained(queue, low, commit);
    let records = between(log, from, commit);
    let front = backfill_frames(records, values, commit);
    let back = retained(queue, commit);
    let all = front + back;
    assert forall|i: int| 0 <= i < front.len() implies from <= frame_lsn(
        #[trigger] front[i],
    ).unwrap() <= commit && frame_lsn(front[i]) is Some by {
        if i < records.len() {
            assert(from <= records[i].0 <= commit);
        }
    }
    assert forall|i: int, j: int| 0 <= i < j < all.len() implies frame_lsn(
        #[trigger] all[i],
    ).unwrap() <= frame_lsn(#[trigger] all[j]).unwrap() by {
        if j < front.len() {
            assert(all[i] == front[i] && all[j] == front[j]);
            if j < records.len() {
                assert(records[i].0 < records[j].0);
            }
        } else if i < front.len() {
            assert(all[i] == front[i] && all[j] == back[j - front.len()]);
        } else {
            assert(all[i] == back[i - front.len()] && all[j] == back[j - front.len()]);
        }
    }
}

/// Every record from the one that a follower asks for up to the commit is in
/// its backfill, with the value of a put.
pub proof fn lemma_backfill_is_complete(
    log: Seq<Logged>,
    values: Seq<Option<Seq<u8>>>,
    from: u64,
    commit: u64,
    i: int,
)
    requires
        0 <= i < log.len(),
        from <= log[i].0 <= commit,
    ensures
        exists|j: int|
            #![trigger values[j]]
            0 <= j < between(log, from, commit).len() && backfill_frames(
                between(log, from, commit),
                values,
                commit,
            )[j] == append_frame(log[i], values[j]),
{
    let records = between(log, from, commit);
    let j = lemma_between_has(log, from, commit, i);
    assert(backfill_frames(records, values, commit)[j] == append_frame(log[i], values[j]));
}

proof fn lemma_between_has(log: Seq<Logged>, from: u64, commit: u64, i: int) -> (j: int)
    requires
        0 <= i < log.len(),
        from <= log[i].0 <= commit,
    ensures
        0 <= j < between(log, from, commit).len(),
        between(log, from, commit)[j] == log[i],
    decreases log.len(),
{
    if i == log.len() - 1 {
        between(log.drop_last(), from, commit).len() as int
    } else {
        lemma_between_has(log.drop_last(), from, commit, i)
    }
}

} // verus!
