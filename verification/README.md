# ibm-mq

IBM MQ transport: one message on a queue is one Stream — `MQCONN`, `MQOPEN`,
`MQPUT` and `MQGET` on the MQ wire, against a queue manager or the in-process
one this crate carries.

`src/` is the library, verified with Verus. It never touches a socket: each
side of a conversation takes the segments it was sent and gives back the
segments to send.

- `segment` — transmission segments, cut and put back together
- `descriptor` — the structures the calls carry
- `client` — Xmip's side of the calls
- `manager` — the queue manager's side
- `target` — what a send target names
- `location` — a whole receive or send, one reply at a time
- `conversation`, `succession`, `exchange` — what holds between the two sides,
  for one call, for calls in a row, for a whole receive or send
- `text`, `error`, `arrived` — what the others are written with

`app/` carries the segments over TCP with the `transport` crate's sockets, and
implements its `Transport` trait. `tests/` runs both sides against each other
in memory.
