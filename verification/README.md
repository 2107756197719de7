# raft

A Raft node whose consensus logic is verified with Verus.

- `src/` is the verified library:
  - `model.rs`: the node's state as plain values and every protocol step as a
    spec function (vote requests, append requests, elections, heartbeats);
  - `consensus.rs`: the consensus module, each operation proved to follow its
    step; every call on the transport is recorded in the node's state with its
    reply, so the outcome of an election or a round of heartbeats is the model's
    step over the replies actually received;
  - `laws.rs`: properties every step keeps (terms never decrease, a leader only
    appends, one vote per term, a leader needs a majority, log matching after an
    append, redelivered appends change nothing, heartbeats can always be sent
    again) and what the outbound rounds send;
  - `messages.rs`, `server.rs`, `sm.rs`, `node.rs`, `kv.rs`, `clock.rs`: the
    messages, the transport trait, the state machine trait, the cluster
    configuration, the replicated key-value store and the clock.
- `app/` is the process around it: command line, configuration file, tarpc
  transport and the periodic election timer.
- `tests/` runs the library on concrete clusters with a scripted transport.
