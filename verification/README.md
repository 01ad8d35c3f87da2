# Orbit

Strict, ring-based rate limiting, verified with Verus.

The nodes of a ring hand a table of recent usage from each node to the next, once per
epoch. A node admits requests against what the table leaves of the limit, so that no
round trip is on the path of a request. While the nodes operate correctly, all of them
together admit no more for an identifier than `orbit_limit * node_count` within any
`node_count` successive epochs.

Where the node before cannot be pulled from, the nodes further back are tried one after
the other. A node that reaches none of them goes by its own allowance for that epoch, and
hands nothing on.

## Layout

- `src/usage.rs`: one node's record of an epoch, and the table of recent records
- `src/archive.rs`: tables as bytes, in the archive format of rkyv
- `src/stream.rs`: the request for a table and the reply to it, as bytes
- `src/node.rs`: a node: epochs, admission, and the table that it hands on
- `src/pull.rs`: a pull from end to end
- `src/epoch.rs`: what a node does at each epoch boundary, step by step
- `src/ring.rs`: the ring as a whole, and the proof of the strict cap
- `src/load.rs`: the ports, the pace, the tallies and the reports of a load test
- `src/bytes.rs`, `src/sum.rs`: big-endian integers and sums
- `app/`: the node as a service over QUIC, and the load test
- `tests/`: tests of the library

The bytes of an archive are rkyv's; what is relied on of it without proof stands above
`to_archive` and `from_archive` in `src/archive.rs`.
