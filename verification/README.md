# project_zero

A small LAN peer-to-peer node: it finds peers by scanning and beacons, keeps
a Kademlia-style routing table, sends files as numbered 1 KiB chunks over
UDP and puts them back together, stores content under its SHA-256 id,
spreads signed content packets to its peers (dropping repeats and packets
whose signature fails), and renders simple framed pages.

- `src/` is the library, verified with Verus. Each module states its
  behaviour in `requires`/`ensures` over plain mathematical values, and
  the properties that span calls are proved as `law_*` proof functions
  (for instance: reassembly returns the sent file whatever order the chunks
  arrive in, repeats included; a routing-table update keeps the table well
  formed and is idempotent; a signed packet is acted on at most once; a long
  text line is broken without losing characters).
- Calls into the hashing, key-agreement, cipher and signature crates sit
  behind small trusted wrappers whose contracts name or state their results.
- `app/` is the program around the library: sockets, threads, files, the
  egui windows, and the serde/bincode wire format. It runs the content node,
  or the scanner node with `--scanner`. The `image` dependency is there so
  that egui's image loaders can decode the pictures a transfer delivers.
- `tests/` exercises the library on concrete values.
