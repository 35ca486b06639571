# redis_app

A small Redis-like key-value server (`litredis`) and its interactive client, with the
logic verified by Verus.

- `src/` is the verified library:
  - `protocol/`: commands and replies, splitting command lines, parsing arguments,
    reading request frames from a byte buffer, encoding replies and commands, and the
    laws that what a client writes is read back as the same command.
  - `store/`: the key-value store over a `DashMap`, with times to live; `laws.rs`
    states what reads give back after writes.
  - `pubsub.rs`: the channel registry and publishing to subscribers' queues.
  - `queues.rs`: the async runtime's message queues, and the record of what each
    call handed to them.
  - `session.rs`, `commands/`: what each command does in a client's session
    (authentication, subscribed mode, the data commands).
  - `connection.rs`: what to do with the bytes received on a connection (RESP frames
    and inline command lines).
  - `persistence.rs`: the snapshot that survives a restart.
  - `config.rs`: merging settings from the command line, a file and the defaults.
  - `client/`: the client's side: input lines, reply frames, and their display.
- `app/` is the program around it: sockets, files, the command line, the async loops.
- `tests/` runs the library on concrete values.
