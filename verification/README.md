# drop_core

Peer-to-peer file exchange: a sender offers files under a ticket and a
confirmation code, a receiver connects with both and gets the files. The
logic of the exchange is written in Verus and proved against its contracts;
the network, disk and process plumbing lives in `app/`.

## Layout

- `src/wire.rs`: big-endian length headers and the framing of the streams
  that peers exchange, with the laws that a reader takes back what was framed.
- `src/exchange.rs`: the exchange of whole files: drawing ids for the files on
  offer, the handshake and the projections that a sender writes, the reading of
  the stream on the receiving side and the assembly of files from projections.
  The central law, `law_transfer_delivers_files`, states that the receiver
  assembles exactly the sender's files that hold bytes, in order.
- `src/sender.rs`, `src/receiver.rs`: the streaming sender and receiver: the
  handler that serves one receiver, the state of one reception, and the
  decisions taken on what arrives.
- `src/ffi.rs`: the receiving side as a foreign-function interface offers it.
- `src/registry.rs`: subscribers kept by id, modelled as a map.
- `src/handshake.rs`, `src/entities.rs`, `src/ids.rs`, `src/cli.rs`: message
  types, records, fresh ids and confirmation codes, command-line profiles.
- `app/`: the command-line tool, the endpoints and routers, JSON encoding and
  file I/O around the library. It also needs the `iroh` crate, which is not
  among the crate's dependencies: with it the dependency graph grows past
  the size that this build accepts.
- `tests/`: tests of the library on concrete values.
