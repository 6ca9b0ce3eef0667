# wize_demod

A receiver for Wize (EN 13757, wM-Bus mode N at 169 MHz, 2400 baud GFSK)
frames from an RTL-SDR, with its frame logic proved in Verus.

- `src/` is the verified library: preamble search and frame reading on sliced
  samples (`sync`, with laws in `sync_laws`), the CRC-16/EN-13757 frame check
  (`crc`), per-channel rates and frequencies (`channel`), the rtl_tcp wire
  format (`rtl`), bit packing (`bits`) and hex rendering (`hex`).
- `app/` is the program around it: argument parsing, rtl_tcp and file input,
  the floating-point filter and FSK demodulator, signal statistics, worker
  threads and JSON/MQTT output.
- `tests/` exercises the library, including whole frames read from ideal and
  noisy sample streams.
