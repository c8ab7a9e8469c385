# vad_core

Voice activity detection on 16 kHz mono recordings, and a small microphone program on top of it.
The library is written in Verus: each function states what it returns, and that statement is
proved.

- `src/float`: single- and double-precision numbers as bit patterns. A number is modelled as a
  signed count of the smallest positive number of its format, and each operation is proved to be
  the exact operation followed by one rounding to nearest, ties to even.
- `src/signal.rs`, `src/engine.rs`: loudness, zero crossings, the high-pass filter, and the
  decision on each frame.
- `src/detector.rs`: the `earshot` detector, which scores the frames. Its scores go through the
  machine's exponential and logarithm, so nothing is claimed of them but their range; that the
  decisions follow from the scores it gave is proved, and the decision is proved for every score.
- `src/audio.rs`: recordings as bytes, read by `hound`.
- `src/metrics.rs`, `src/monitor.rs`, `src/report.rs`: the benchmark: labels, classification,
  segments, latency, resources, averages and quality gates.
- `src/pitch.rs`, `src/live.rs`: pitch, calibration, utterances and the comparison of voices.
- `src/laws`: what holds across functions.
- `app`: the programs: files, threads, the microphone, the command line.
