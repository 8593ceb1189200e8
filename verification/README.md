# bittorrent

A small BitTorrent client whose logic is verified with Verus.

- `src/` is the library: bencode, the peer wire protocol and its frames, bitfields, blocks
  and pieces, the requests to a tracker, and the decisions of a download. It does no I/O.
  Each function states in its contract what it returns; the proof functions named `law_..`
  state what holds of several functions together.
- `app/` is the program around it: the command line, torrent files, connections.
- `tests/` runs the library on examples.

What the library takes from elsewhere without proof (calls into `bytes`, `hex`, `sha1` and
`serde_urlencoded`, and `String::push`) is declared where it is used, with what is claimed
of it.
