# pubsub-rs

A publish-subscribe registry, verified with Verus.

- `src/` is the verified library. `pubsub.rs` holds the registry
  (`Pubsub`) and its subscribers (`Subscriber`); `model.rs` the
  mathematical model of the topic table; `laws.rs` the laws proved over it;
  `table.rs` and `channel.rs` the trusted items through which the library
  uses `dashmap` (the topic table) and `async-channel` (each subscriber's
  mailbox).
- `app/` is the async, shareable front: handles that share one registry,
  `async` subscribe, publish and receive, and the clean-up done when a
  subscriber or the last registry handle is dropped.
- `tests/` runs the library on concrete scenarios.
