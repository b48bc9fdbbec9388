# ShardVault

An append-only, erasure-coded, replicated object store, verified with Verus.

## Layout

- `src/` is the library. It does no I/O: an operation first says what is to be
  read or written (`put_target`, `commit_bytes`, `compact_plan`, `apply_io`),
  and is then told how that went.
  - `gf`, `linalg`, `matrix`, `rs`: Reed-Solomon coding over GF(2^8).
  - `block`: 4 KiB blocks with a CRC-32C.
  - `stripe`: stripes of shard files over node directories.
  - `wal`: the write-ahead log, its records, and recovery from its bytes.
  - `table`, `rollup`, `ordered`, `sorting`, `text`: the data structures of the
    store, and its file names.
  - `segment`: the store, with `open`, `read`, `cell`, `publish`, `compact` and
    `apply`.
  - `layout`, `state`, `visible`: the models that the contracts of the store
    speak of.
  - `protocol`, `node`, `fault`: frames, the decisions of a leader and of its
    followers, and the fsync counter.
  - `replay`, `durability`, `coverage`, `residue`, `values`, `history`,
    `showing`, `census`, `convergence`, `replica`, `quorum`, `stream`,
    `guarantees`, `session`: what holds of the store and of the node as a whole.
- `app/` holds the daemon and the control program: sockets, threads and files.
- `tests/` runs the library on files in memory.

## What is proved of the store

- A store that is in order (`history::healthy`) stays in order through puts,
  commits and compactions, and reads back what was put.
- Readers see a put only once a commit that covers it is durable
  (`Store::lemma_shown_is_committed`), and never go back
  (`showing::lemma_steps_are_shown`, `showing::lemma_applied_may_be_shown`).
- A crash after a commit loses nothing that was committed, whatever was logged
  after it and however the end of the log is damaged; the recovered store is in
  order again (`history::lemma_reopened_is_healthy`).
- No LSN is given out again after a recovery, however many recoveries follow
  one another (`wal::lemma_lsns_are_never_reused`). The mark that this takes is
  kept in a file of its own.
- A compaction changes what no key gives, at once and after a restart
  (`guarantees::lemma_compact_commit_keeps_values`,
  `guarantees::lemma_compact_commit_survives_restart`).
- A follower that applies its leader's records holds the same bytes for every
  key (`convergence::lemma_followers_converge`); one that is sent everything
  that a leader puts and commits is a copy of it
  (`replica::lemma_follower_becomes_a_copy`), and its readers see what the
  leader's see (`replica::lemma_synced_follower_reads_alike`).
- A follower acknowledges only after a sync that succeeded, and takes nothing
  more after an error (`stream::lemma_follower_stream`).
- A decision is taken only after a majority had every record of it on disk when
  it acknowledged (`quorum::lemma_decided_is_on_a_majority`). A follower that
  restarts gives up what was not committed.
- A put that was acknowledged is read by whoever asks next
  (`session::lemma_acknowledged_put_is_read`).
- Any `k` of `k + m` shards give back a stripe, and fewer never give a wrong
  one (`stripe`, `rs`).
- The aggregates of a prefix are a recount of the objects under it (`census`).
