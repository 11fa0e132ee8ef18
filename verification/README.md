# rtbit

The verified core of a BitTorrent client and of the program that
benchmarks it, written in Verus: the functions in `src/` carry contracts
that Verus proves, and several laws of the library (what a decoder gives
back of an encoder, what the peer store answers after an announce, which
peers garbage collection evicts, that both sides of an MSE handshake agree
on a secret, which notifications are shown once, ...) are proof functions
next to the code they speak of. Calls into other crates are trusted, not
proved.

Layout:

- `src/` — the library. One module per subject: `bencode`, `torrent_file`,
  `mse` (with `mse/handshake` and `mse/stream`), `rc4`, `incoming`,
  `webseed`, `seeder`, `tracker`, `peer_store`, `peers`, `queue`,
  `super_seed`, `limits`, `http_auth`, `desktop_config`, `notify`,
  `scenarios`, `bench_clients`, and the helpers `decimal`, `text`, `svg`.
  Calls into other crates (SHA-1, big-number arithmetic, randomness, base64,
  percent-encoding, regular expressions, the clock) sit behind small trusted
  wrappers whose contracts state what those crates document.
- `tests/` — tests of the library on concrete values.
- `app/` — the benchmark program around the library: the command line, the
  networking of the tracker and the mock seeder, the asynchronous encrypted
  streams, Docker and the HTTP clients of the programs under test, and the
  floating-point measurements, reports and charts.

Collections. Where the client keeps a map in a concurrent or hashed
collection (the peer store's and a torrent's peer tables, the super-seed
table, the token store) or in an ordered map (bencode dictionaries), the
library keeps a `Vec` whose invariant states what the map guaranteed: each
key once, and for dictionaries keys in increasing order. The peer store's
tokens stay in a `VecDeque`, as in the client.
