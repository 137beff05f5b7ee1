# protohackers

Servers for the Protohackers problems, written as a Verus library with the
networking around it in plain Rust.

- `src/` is the verified library: each protocol's message formats, parsers
  and encoders, and each server's state and decisions (the chat room, the
  price store, the key-value store, the speed daemon's tickets, the line
  reversal sessions, the job centre's queues, the pest control policies,
  the version control tree), with their contracts and the laws that hold
  across calls.
- `app/` runs the servers: sockets, tasks, timers, JSON, and the one
  computation done in floating point (the speed daemon's average speeds).
- `tests/` exercises the library on concrete values.
