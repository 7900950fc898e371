# miniredis

An in-memory key/value server that speaks the Redis wire protocol (RESP2), with expiry of
keys and eviction of the least recently used one. The logic is a library verified with
Verus; the server around it only performs input and output.

Commands: `PING`, `GET`, `SET` (with `EX` or `PX`), `DEL`, `EXPIRE`, `TTL`.

- `src/` is the verified library. `src/lib.rs` says what each module is for. The laws of
  the library stand in `codec_laws`, `store_laws`, `command_laws` and `connection`.
- `tests/` exercises the library on concrete values.
- `app/` is the server: the first argument is the listen address (`127.0.0.1:6379` by
  default), and `MINIREDIS_CAPACITY` limits the number of keys.

What is believed without proof is marked as such in `clock`, `command`, `resp` and
`shared`: the monotonic clock, the lock, and three string functions of the standard
library.
