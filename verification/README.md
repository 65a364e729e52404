# logmux

The log collector of LogMux: it tails Kubernetes container log files, parses CRI and
Docker JSON log lines without copying them, and streams them to the aggregator over a
big-endian binary TCP protocol.

`src/` is the verified library, checked by Verus:

- `time`: RFC 3339 timestamps to Unix nanoseconds, against a calendar model.
- `parser`, `cri`, `json`: the two log line formats; payloads borrow from the line.
- `tail`: choosing the line format and buffering a file's unread bytes line by line.
- `path`, `metadata`: path components, the `.log` extension, and pod metadata from a
  `.../<namespace>_<pod>_<uid>/<container>/<n>.log` path.
- `codec`: frame headers, stream registrations and event batches, with the laws that a
  reader recovers what was written.
- `dispatch`: per-file streams, batching and the steps that decide what to send.
- `watch`, `sys`: inotify records, event plans and the watch registry.
- `transport`: reconnection backoff and the meaning of failed writes.

`app/` is the daemon around it: inotify and `poll` system calls, file reads, the TCP
connection and `main`. `tests/` runs the library on concrete inputs.
