# atlas_metrics

Metric collection for a replicated system: a registry of metrics addressed
by index, the measurements recorded into them (counters, Welford statistics
of durations and counts, the largest counts, correlation-identifier event
histories, per-identifier durations and counters), and the readings
produced when they are collected.

The library in `src/` is written in Verus: each operation carries a
contract over a mathematical model of the metrics, and laws about several
operations (what collecting hands back of what was recorded, how buckets
are used in turn, how collected data is joined) are proved as proof
functions in `src/laws.rs` and `src/round_trip.rs`.

Layout:

- `src/` — the verified library. Calls into outside crates (`dashmap`,
  `thread_local`, `chrono`, the std clocks) go through small trusted
  wrappers in `src/shared_map.rs`, `src/thread_slot.rs` and
  `src/clock.rs`, each with a doc comment saying what it assumes.
- `tests/` — tests of the library on concrete values.
- `app/` — the process-wide side: the shared registry behind a lock, the
  reporting thread that writes readings to InfluxDB, and the thread that
  reports the operating system's usage.
