# inferencemesh

A peer-to-peer network that runs the layers of a language model as a
pipeline across machines: workers announce the layers they hold in a
Kademlia hash table, and a client finds a provider for every layer and
sends a forward pass along the chain; each worker passes it on, the last
one answers, and the answer travels back.

## Layout

- `src/` is the library, written and proved with Verus:
  - `wire`, `message`, `request`, `response`, `codec`, `dtype`: the byte
    layout of forward passes and their answers, and the stream framing;
  - `peer`: peer identities as the bytes of a libp2p `PeerId`;
  - `routing`, `worker`: what a worker does with each hop and each reply;
  - `client`, `provider_cache`: how a client finds providers, sends the
    forward pass and fails over;
  - `spans`, `latency`: which peer serves which blocks, and the routes
    through them;
  - `dht`, `ping`, `memory`, `config`, `types`, `cli`, `text`, `clock`:
    hash-table keys, round-trip times, cache accounting, model settings,
    server descriptions, the command line's layer range, and time.
- `app/` is the program around it: the command line, the libp2p swarm and
  its event loops, JSON records, the tensor computations, and the choices
  made on floating-point measurements.
- `tests/` runs the library on concrete values.

## Wire format

Requests and responses travel in a little-endian layout of this library's
own, described at the top of `src/request.rs` and `src/response.rs`: fixed
width integers, length-prefixed byte strings and tensors. It is not the
Cap'n Proto encoding, and peers that speak Cap'n Proto messages cannot read
it. Durations are given to the library in nanoseconds.
