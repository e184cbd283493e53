# hop-relayd

The relay of the Hop mesh: an always-on node that holds bundles for peers that are offline and
bridges local meshes over the internet. It takes connections from anybody, so what it decides is
verified with [Verus](https://github.com/verus-lang/verus).

```
hop-relayd [--listen 0.0.0.0:9443] [--ws 0.0.0.0:8080] [--peer host:port]...
           [--db hop-relay.db] [--identity-file PATH] [--firestore PROJECT]
           [--region NAME] [--advertise URL] [--mesh-fanout N]
```

## Layout

* `src/` is the library. What the relay decides is decided here, by functions whose contracts Verus
  proves: budgets and pools, framing, the turns of each connection, the driver's turns, the log, the
  mailbox and the handoff between regions. What holds across calls stands in the proof functions
  named `law_...`.
* `app/` is the program around it: sockets, threads, the clock, the node and its stores. It performs
  what the library decides and hands back what came of it.
* `tests/` runs the library on concrete values.

Two functions of other crates are trusted, both in `src/identity.rs`. Of the encoder of `bs58` it is
taken for granted that it writes base58, as `src/base58.rs` defines it; of the hash of `blake3`, that
its result depends on its input alone. The mailboxes are kept by whatever implements the trait
`MailboxStore`, of which nothing is taken for granted but that a call of a method is one call.
