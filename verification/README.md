# wavicle

A lossless codec for the WavPack v5 stream, written in Verus: every function
carries a contract that the verifier proves.

- `encode::encode_int` writes mono or stereo integer PCM (8, 16, 24 or 32 bits)
  as one block: a single fixed decorrelation pass, the median-adaptive entropy
  coder, and the block's framing and checksum.
- `decode::decode_stream` reads 16-bit integer streams, mono or stereo (joint
  and false stereo included), and stops with an error on a checksum mismatch
  or an over-magnitude sample rather than muting the block.
- `float` rebuilds 32-bit float bit patterns with integer operations only.

Each public function's `ensures` states its result exactly over spec
functions (`encode::encode_result`, `decode::stream_decode`, ...). The module
`roundtrip` proves the library's central law, `lemma_encode_then_decode`:
encoding 16-bit samples and decoding the stream gives back exactly those
samples, channel count and sample rate. The round trips of its parts (bit
codes, entropy coder, decorrelation) are proved in their own modules.

Layout: `src/` is the verified library, `tests/` its tests.
