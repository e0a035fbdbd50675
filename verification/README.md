# hypercore_rs

A substrate of signed, append-only logs, with its behaviour stated in contracts and
proved by Verus.

- `codec`: varints, versioned frames, tagged values, typed codecs.
- `merkle`: a BLAKE3 Merkle tree over flat indices, with inclusion, range, upgrade, seek
  and node proofs.
- `storage`: byte stores: in memory, a record file with compaction, a write-through pair,
  the layout of a store in one file, and a paged bitfield.
- `identity`: ed25519 keys and signatures; manifests with a quorum of signers.
- `hypercore`: a log with a signed head, replicas that trust nobody, snapshots, streams,
  commitments to a prefix, and logs that a quorum signs.
- `autobase`: many writers' logs in one order, and the part of it that is final.
- `hyperbee`: an ordered key/value index in a log.
- `roomnet`: rooms that replicate, take up what their stores kept, and fold a view.

The public proof functions named `law_*` state what relates several operations: that
what is appended is read, that proofs of honest logs are accepted and that a forged
block means a hash collision, that replicas converge, that what is final stays while
writers build on everything there is, that a room comes back from its stores as it was.

What a store holds is promised until one of its operations fails. Logs, replicas, rooms
and the driver stay in order after that; only what is read from that store is left open.

BLAKE3 (`src/merkle/hash.rs`) and ed25519 (`src/identity.rs`) are called, not proved:
their results are named, and little is said of them. A driver's decisions
(`src/roomnet/driver.rs`) are proved; its loop waits and sends in `app/`.

`app/` holds what touches the machine: files, the browser's private file system, the
network.
