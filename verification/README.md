# qstream

Peer-to-peer live video over UDP. A master serves an HLS playlist and its
segments; peers pull segments from it and from one another, serve what they
have, and offer the stream to local players over HTTP.

The library in `src/` is written in Verus: protocol, transfers, peer
bookkeeping, scheduling, playlists and statistics are executable Rust whose
contracts are proved. It does no I/O of its own. Time is an argument in
nanoseconds, datagrams come in as bytes and go out through an outbox, and what
needs a file is an event that the caller answers.

| Module | What it holds |
|---|---|
| `protocol` | messages and their datagrams |
| `transfer`, `sender`, `receiver`, `registry` | reliable segment transfer |
| `fault` | seeded drop, duplicate, delay, reorder and burst faults |
| `endpoint`, `peers`, `node` | who is known, how good they are, what is answered |
| `peer` | what is pulled from whom, and when |
| `playlist`, `http`, `stats`, `store` | playback, statistics, the local directory |
| `upnp` | the texts of a port mapping |
| `table`, `text`, `log` | ordered tables, text, log lines |
| `laws`, `download_laws`, `playlist_laws`, `schedule_laws` | what holds of several of these together |

`app/` holds the sockets, files and threads around it:

```sh
qstream server <port> <manifest-path> [http-port]
qstream peer <local-port> <remote-ip> <remote-port> [data-dir] [http-port]
```

Settings come from the environment: `QSTREAM_NAME`, `QSTREAM_LOG`,
`QSTREAM_PACING_MS`, `QSTREAM_QUIET_MS`, `QSTREAM_FIRST_TIMEOUT_MS`,
`QSTREAM_RETENTION_SECS`, `QSTREAM_PLAYBACK_HOLDBACK_SEGMENTS`,
`QSTREAM_ORIGIN_SEEDERS`, `QSTREAM_NO_UPNP` and `QSTREAM_FAULT_*`.
