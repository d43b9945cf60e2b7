# bench-server

An HTTP benchmark target (`/ok`, `/e404`, `/e500`, `/blob`, `/slow`) with
in-memory statistics and a dashboard, whose core is verified with Verus.

- `src/` is the verified library:
  - `config`: the server settings, their consistency rules (`validate`) and
    the listening address (`bind_addr`, with `text` for decimal rendering);
  - `random_source`: the seeded or thread-local generator of `rand`;
  - `payload`: the parameters and bodies of `/blob` and `/slow`;
  - `stats`: the statistics (totals, counters by endpoint in a `DashMap`, counts
    by status, a per-second time series in a `BTreeMap`), with `latency`
    (the `hdrhistogram` latency histograms), `tables` (the `DashMap`s),
    `timeline` (the per-second buckets), `report` (sorted read-outs),
    `order` (the order of names), `tally` (sums) and `keys`.
- `app/` is the server itself: axum routes, clocks, streaming, JSON, the
  command line, and the floating-point figures (percentiles, average rate).
- `tests/` exercises the library on concrete values.
