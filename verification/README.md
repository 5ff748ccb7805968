# sigma_diagnostics

CAN signal reverse engineering whose every reported fact holds over every
observed frame, with contracts proved by Verus.

- `src/` — the verified library: bit activity and raw field extraction,
  counter / checksum / multiplexor proofs, per-ID surveys, differential
  compares, DBC validation, correlation candidates, OBD-II (ISO-TP
  reassembly, Service `$01` PIDs, polling decisions), frame filters and
  statistics, the viewer's text helpers, and the text reports. Public
  `lemma_*` proof functions state the library's laws.
- `tests/` — tests on concrete values.
- `app/` — the `canre` command line: argument handling, file and SocketCAN
  I/O, JSON output, and the floating-point figures (timing statistics,
  physical values, PID scaling, affine fits).
