# torrentstream

A BitTorrent client whose core is a library verified with Verus.

- `src/` is the library. It holds the peer-wire message format (`types`,
  `peer`), the torrent metainfo and the tracker's announce request
  (`types`, `tracker`, `json`), the arithmetic of pieces (`utils`), the
  state of a download (`types`), the queue of piece requests (`queue`,
  `priority`), the pool of peers (`pool`, `connection`) and the decisions
  of a download worker (`download`). SHA-1 and hexadecimal encoding come
  from the `sha1` and `hex` crates (`digest`), JSON renderings from
  `serde_json`, the clock from `std::time` (`clock`).
- `app/` is the program around it: the command line, the bencoded files,
  the HTTP request to the tracker, the TCP connections to the peers, the
  asynchronous workers, and the floating-point priorities and percentages.
- `tests/` runs the library on concrete values.
