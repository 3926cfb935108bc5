# shred-sniper

A node that joins Solana gossip, receives turbine, puts transactions back together
from the shreds of the slot being produced, and answers those of the wallets it
watches.

`src/` is the part that decides: the shred format, erasure recovery, reassembly
of entries, the check of a shred against its slot's leader, the race between two
wallets, when and with what to fire, where to send it, and the configuration. It
is written in Verus, and its contracts are proved. What it takes from other crates
(hashing, signatures, the Reed-Solomon codec, bincode, JSON, base 58) it calls
through small functions marked `#[verifier::external_body]`, each of which says
what is believed of the call.

`app/` is the node around it: sockets, threads, RPC, gossip, QUIC, logs and
metrics. It performs what the library decides and hands back what came of it.

| module | what it holds |
| --- | --- |
| `shred` | the Merkle shred format and the root a shred hashes to |
| `fec`, `erasure` | recovery of lost data shreds |
| `wire`, `decoder`, `starts`, `slot`, `entries` | entries, as they become readable |
| `delivery` | what comes of a batch, whatever order its shreds arrive in |
| `leaders`, `verify` | who leads a slot, and whether a shred is theirs |
| `race` | positions of two sides' transactions in a block |
| `fire`, `tpu`, `keys` | answering: when, what, to whom, signed by what |
| `pipeline`, `receiver` | a datagram's way through all of it |
| `config`, `netstat`, `text` | settings and kernel tables, read from text |
| `aged`, `maps`, `sums`, `addresses`, `clock`, `metrics` | what the others share |
