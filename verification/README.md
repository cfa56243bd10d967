# p2p

Set reconciliation between two peers, verified with Verus, and the traffic
counters that price it.

Two peers holding overlapping sets discover their difference by exchanging bytes
proportional to that difference rather than to the size of the sets. Two engines
do this:

- **RBSR** (`reconcile::engine::rbsr`) tiles an ordered keyspace with ranges,
  compares fingerprints, and splits or lists the ranges that disagree.
- **RIBLT** (`reconcile::engine::riblt`) streams coded symbols and peels the
  difference out of what is left after the local set is subtracted.

## Layout

- `src/` is the library. `reconcile::source` holds the sealed local set,
  `reconcile::session` and `reconcile::drive` run an engine, `reconcile::codec`,
  `cbor` and the engines' `wire` modules are the wire format, and `metrics` counts
  traffic. What holds of whole sessions stands in the `laws`, `rounds` and `fit`
  modules of the range engine and in `laws`, `exchange`, `fit` and `recovery` of
  the rateless one.
- `tests/` runs the library on concrete sets, frames and streams.
- `app/` binds it to asynchronous streams: the loops that drive both roles, a QUIC
  bi-stream, and a shared handle on the counters.

SHA-256 (`sha2`), LEB128 (`unsigned-varint`) and the CBOR bytes themselves
(`ciborium`) are called, not verified; the functions that call them say what is
taken on trust.
