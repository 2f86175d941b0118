# kvstore

An in-memory key-value store spoken to over TCP, with its protocol logic
verified by Verus.

- `src/parse.rs`: the request grammar (`GET`, `SET`, `DEL`, `CLR` with
  `$length$data` fields), read from a growing buffer, and the step functions
  that tell a connection's reader what to do next. Proved: what the grammar
  writes is read back whole, only that encoding is accepted, a complete request
  is not changed by later bytes, and refusals are final.
- `src/prefixes.rs`: the stream waits on a buffer exactly when it is a proper
  beginning of a valid request.
- `src/session.rs`: a whole connection yields the same requests however its
  bytes are split into reads; a stopped stream stays stopped.
- `src/text.rs`: requests shown as text (`Get foo`, `Set foo bar`, ...).
- `src/encode.rs`: the replies (`OK`, `ERR`, `VALUE$n$data`).
- `src/store.rs`: the store and what each request does to it, with its laws;
  `src/store/parse.rs`: a parser for requests held whole in one slice.
- `src/state.rs`: a plain byte-string map.
- `src/decimal.rs`: decimal numerals and their laws.
- `app/`: the TCP server (argument handling, threads, socket reads and writes).
