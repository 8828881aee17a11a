# WorldDat

A content-addressed peer-to-peer network. Peers are named by BLAKE2s hashes, keep
buckets of the peers they know, sorted by XOR distance, and tell each other who is
where.

The library in `src/` is verified with Verus:

 * `distance` says how far apart two hashes are and which bucket a distance belongs in.
 * `hash`, `types`, `rng`, `text` and `addr` hold hashes, peers, messages, random
   identities, the text forms of bytes, and addresses.
 * `closest` picks the closest of a list of peers; `buckets` says what the maps hold and
   proves that looking in the right buckets finds the closest of all peers.
 * `flat_peer_map` and `peer_map` are two maps of known peers, one with limited room and
   one without.
 * `worker` decides what a peer does about a message, `sim` who gets which message in a
   simulated network, and `data_mongler` when a peer's thread stops.
 * `peer` and `peer2` hold what peers say to each other over streams, `stream` the
   streams, `tls` the keys that they show, `bootstrap` where the first of them is, and
   `echo` the service that sends back what it was sent.
 * `proto` lists the questions that peers can ask, `result_ext` looks at errors in passing.

The programs in `app/` do the talking: threads, channels, QUIC, logging and the command
line. Run one of

 * `simulate`: three workers join a network one after the other.
 * `simulate-pair`: two workers, one of which pings the other.
 * `service`: the echo service, with a few clients.
 * `peer --cert certs/server.chain --key certs/server.rsa`: a peer. To use another peer
   as a bootstrap node, add `-l '[::]:5555' -b quic://127.0.0.1:4433`.
 * `peer2`: a peer with the same options that passes on what it is sent.
