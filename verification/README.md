# bitswarm

A BitTorrent client whose protocol logic is a Verus-verified library.

- `src/` — the library, verified by Verus:
  - `bencode`, `decimal`, `text`: bencode values, their encoding and decoding
    (encoding writes each dictionary's keys in ascending order, and decoding
    gives back what encoding wrote), numbers and text.
  - `metainfo`: reading torrent files into `Metainfo` (the info hash is the
    SHA-1 of the root dictionary's `info` value, byte for byte as in the file),
    piece and block lengths,
    tracker lists, the display of a torrent.
  - `types`, `bitfield`: hashes, peer ids and addresses, bitfields.
  - `peer`: wire messages, handshakes, the messages taken from a connection's
    read buffer, what is known of each peer, and the table of connected peers.
  - `storage`: where each piece lies in the torrent's files, and the bookkeeping
    of written pieces.
  - `session`: the piece tracker and `SessionCore`, which decides what to do
    with each message, which blocks to request, whom to choke and what to
    forget when a peer leaves. It hands back actions for the caller to perform.
  - `dht`: the peers in the DHT sidecar's answer to a lookup.
  - `extern_calls`: the calls into `hex`, `sha1`, `rand` and `bytes`, with the
    contracts that they are trusted to meet.
- `app/` — the `bittorrent` program: command line, TCP connections, the DHT
  sidecar's gRPC client, files on disk, timers; it performs the actions that
  `SessionCore` decides.
- `tests/` — tests of the library.
