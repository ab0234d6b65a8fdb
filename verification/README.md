# vtorrent

The rules of vTorrent as a library that Verus verifies: scripts, light-client checks, the snapshot of
old balances, the block store, the torrent engine and the decisions of the desktop program.

| Module | What it holds |
| --- | --- |
| `script` | Script programs, numbers and the stack machine, standard scripts and how they are spent |
| `spv` | Headers and the header chain, Merkle trees, Bloom and Golomb-coded filters, stake proofs |
| `snapshot` | Reading the old chain state, the aggregated balances, their file and the embedded table |
| `store` | What is written to the tables of the block store, what is read back, and how it heals |
| `torrent` | Torrent files, magnet links, peers, trackers, DHT, pieces on disk, downloads, payments |
| `desktop` | What the commands on wallets, nodes, swaps, claims, staking and torrents decide |
| `bytes`, `text`, `encoding`, `crypto`, `clock` | What the others build on |

Each function states in its contract what it returns or changes, and public proof functions whose
names begin with `law_` state what holds across functions. Calls into other crates (hashes, ECDSA,
bencode, base64, URLs, random numbers) stand behind small wrappers whose doc comments say what is
taken on trust.

`app/` holds the program around the library: files, the network, the database, JSON and what is shown
with floating-point numbers. `tests/` runs the library with the real crates.
