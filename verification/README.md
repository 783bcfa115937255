# sod

Symmetric replication: local-first replicas that always accept writes and
converge by exchanging hash-chained logs of Z-set deltas. The library is written
in Verus, which verifies its functions against their contracts.

## Layout

- `src/` is the library.
  - `frame`: replica ids, frames, their hashes, and the record format.
  - `log_file`: recovery of a log from its bytes.
  - `vector`: version vectors. `zset`: multisets with signed multiplicities.
  - `engine`, `store`: the traits an engine and a log implement, with an
    in-memory implementation of each.
  - `feeds`: hash chains, log replay and net multisets as mathematics.
  - `replica`: opening, committing and ingesting.
  - `sync`: the session state machine, and a driver for two replicas in one
    process. `converge`: what a session does to two replicas. `mesh`: any number
    of replicas that commit, meet and break off meeting.
  - `sinks`, `engine_fold`, `bytes`: what an engine on a transactional store
    decides and writes.
  - `time`: a shared watermark handle.
  - `codec`: the calls into BLAKE3, postcard, the random source and std's
    formatter. Their contracts are trusted, not proved.
- `tests/` runs it.
- `app/` is ordinary Rust around it: the file-backed log, the wire encoding,
  `std` errors, and the fold-backed engine (feature `fold-engine`, which needs
  the `fold` crate).

## What is proved

A public function says in its `ensures` what it returns or changes. The exceptions
are the methods of `Watermark`, whose shared value other handles may move at any
time; `Debug`, which writes to a formatter; and, in `ReplicaId::generate`, which
id comes back. An engine or a log that a user writes is trusted to keep the
contract of its trait.

What holds across functions is stated in proof functions whose names begin with
`law_`:

- A record reads back, and every cut of it is partial. A torn log tail is dropped
  and interior corruption refused.
- Deltas and frames commute. The canonical bytes of two multisets are equal if and
  only if every datum has the same multiplicity in both.
- Replay closes the window between log and engine exactly. The cursor and the bag
  of an engine on a store read back from the store's bytes.
- Replicas that hold the same frames hold the same multiset and watermark.
- A session reports the first refusal of each origin, in order, and no two about
  the same feed unless an engine or a log blames a feed that is not the frame's.
- A session between replicas that no origin has told different things never breaks
  off for the protocol's sake, and leaves both with the same feeds, but for feeds
  that one of them has poisoned. Cut on each side after any number of frames and
  run again, it leaves both where it would have left them uncut.
- However replicas join, commit, meet and break off, each holds of every origin a
  part of what the origin itself holds, so any two of them can meet. Two rounds of
  sessions with a hub leave all that took part with the same feeds.
