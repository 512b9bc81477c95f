# rfed

A federation node for the Reticulum network: channels with deferred delivery,
shared identities with several devices, relays that wake sleeping clients, a
backup among nodes, and a store-and-forward node for directly addressed
messages.

- `src/` holds the rules of the node, verified with Verus. A request comes in
  as bytes with what the network knows of its sender, and goes out as a reply
  and a list of things to do. Times are nanoseconds and are handed in.
- `app/` is the program around it: the command line, files, threads, and the
  network stack behind the trait `Network`. Two sets of rules stand there and
  are not verified: which peers are due for an exchange of blobs and when they
  are tried again (`app/sync.rs`), and the form of the configuration file
  (`app/config_file.rs`).
- `tests/` run the library with the crates that it is built on.

| Module | What it holds |
| --- | --- |
| `octets`, `lists`, `order`, `id_map`, `text`, `digest`, `fields`, `msgpack` | byte strings, ordered maps, text, digests, wire values |
| `config`, `options`, `status` | the configuration, how it is put together, what a node says of itself |
| `channel`, `announce`, `subscription`, `blob_store`, `deferred_queue` | channels, subscriptions, and the blobs kept for them |
| `notify`, `handoff`, `stream_registry`, `link_session`, `sessions`, `fanout` | how a blob reaches a subscriber, and what happens where it does not |
| `distro` | shared identities and their devices |
| `destinations` | what a node answers on each of its destinations |
| `lxmf_propagation` | the store-and-forward node and its exchanges with peers |

Public proof functions whose names start with `law_` state what holds of the
node as a whole.
