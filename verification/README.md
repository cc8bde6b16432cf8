# tacticalmesh

A mesh networking stack for a small drone swarm: signed and encrypted radio
frames with Reed-Solomon FEC, OLSR-lite routing, a replicated target board,
image transfer in shards, and four strict-priority transmit queues.

The library in `src/` is written in Verus; every function in it carries a
contract that Verus proves.

- `bytes`, `headers`, `priority`, `errors`: wire encodings of the frame headers
  and their codes.
- `crypto`, `identity`, `nonce_cache`, `frame`, `fec`: frame construction,
  signature and replay checks, XChaCha20 payload encryption, FEC coding.
- `olsr`, `routing`: neighbor and link-state tables; `routing` proves that the
  recomputed route table holds a cheapest route to every reachable node.
- `crdt`, `messages`, `image_cache`, `image_codec`: the application layer.
- `scheduler`, `jam`, `link`, `node`, `render`: the decisions of the node's
  tasks (queueing, jam detection, stream ids and datagram framing, message
  handling, block-character image art).

Calls into BLAKE3, XChaCha20, Ed25519, Reed-Solomon and JPEG go through small
trusted wrappers whose contracts are stated next to them.

`app/` is the node program: sockets, threads and tasks, serde/bincode message
encoding, the terminal UI. `tests/` exercises the library.
