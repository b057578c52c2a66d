# yabba

Yet another boring bandwidth analyzer: a sender opens TCP streams to one or
more listeners and writes buffers for a given time; a listener reads from each
connection until it closes; both print the rate of every stream and totals.

- `src/` is the verified library: spans of time (`elapsed`), the measurement
  record and the choice of a display unit (`rate`), the per-connection meters
  that count buffers and decide when to stop or report (`meter`), the totals
  per stream, per peer and overall (`totals`), the facts that per-peer lines sum the
  peer's measurements and do not depend on arrival order (`order`), and the sender and listener
  settings (`client`, `clients`, `server`).
- `app/` is the command line and the network, threads, clock and printing
  around the library.
- `tests/` runs the library on concrete values.
