# reapeaks

Streaming generator of REAPER `.ReaPeaks` files (RPKN v1.1) from interleaved
s16le PCM, as a Verus-verified library.

- `src/` — the verified library:
  - `bucket.rs`: cutting an interleaved stream into buckets of `div` frames;
  - `wave.rs`: per-bucket max/min levels;
  - `loudness.rs`: per-bucket exact sums of squares (the RMS values derive from them);
  - `spectral.rs`: scheduling and cutting of the 2048-sample analysis windows, code storage;
  - `options.rs`: features, division factors, option validation;
  - `format.rs`: byte layout of the file;
  - `streamer.rs`: the streamer tying the layers together (chunk carry, trimming, padding, assembly).
- `app/` — the Python module (pyo3), the floating-point analyses (FFT spectral
  codes via `realfft`, `f32` RMS), their parallel execution (`rayon`) and the
  error messages.
- `tests/` — the test suite, run against the compiled library.

The central property, chunk-splitting invariance (feeding any sequence of
chunks equals feeding their concatenation, windows and recorded codes
included), is proved in `streamer.rs` (`lemma_streamer_fed_all`,
`lemma_streamer_coded_all`); `lemma_output_well_formed` shows that every
payload of the file matches its header.
