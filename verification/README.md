# runperf

A network throughput and packet-rate benchmark (TCP Gb/s, UDP Mpps with loss
from per-stream sequence gaps), split in two:

- `src/` — the verified library: cpulist parsing and CPU selection, command-line
  flags, the anti-OOM guard, the UDP payload header, per-stream loss accounting,
  batch tallies and send-rate pacing, each with a contract proved by Verus, and
  the laws that tie them together (`law_*` proof functions).
- `app/` — the `runperf` program: argument handling, sockets (`sendmmsg` /
  `recvmmsg` through `libc`), threads, CPU pinning, `/proc` and `/sys` reads,
  shared atomic counters and the floating-point rate report.
- `tests/` — tests of the library on concrete values.
