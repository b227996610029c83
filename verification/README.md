# Gearbox

A simple command-line bittorrent client. What it decides and computes is a
library whose behaviour is stated in contracts and proved with Verus; sockets,
files, threads and the terminal are ordinary Rust around it.

- `src/` is the library.
  - `bencode`, `bencode_laws`, `conversion`: the grammar of torrent files and
    tracker replies, and values out of it.
  - `torrent_file`, `torrent_info`, `file_sections`, `piece_check`,
    `piece_check_laws`: torrents, where their pieces lie in files, and which of
    them are on disk.
  - `piece_set`, `piece_data`, `bits`, `digest`: sets of pieces, and pieces that
    are being put together.
  - `messages`, `handshake`, `protocol_model`, `peer_protocol`,
    `protocol_laws`: the peer wire protocol. `protocol_model` says as mathematics
    what every message does, `peer_protocol` does it, and `protocol_laws` proves
    what follows.
  - `tracker`, `peer`: what is said to trackers, and what they answer.
  - `event_handler`, `files`, `ui`: what the event loop, the disk reader and the
    screen decide.
  - `buffers`, `wire`, `text`, `chance`, `byte_slices`, `types`: what the others
    are made of.
- `app/` is the client.
- `tests/` runs the library.

## Usage

    path/to/gearbox path/to/torrent_file.torrent
