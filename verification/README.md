# audio_fx

The buffering and naming logic of a small JACK audio effects host, verified
with Verus.

- `src/frame_ring.rs`: a ring of equal-sized frames written and read one frame
  at a time (the double buffer of the filters), and circular look-back indices.
- `src/frame_accumulator.rs`: collects small frames into one large frame for
  block processing and hands the processed block back a small frame at a time.
- `src/effect_chain.rs`: the stage interface and the routing of a frame
  through a chain of stages between a scratch buffer and the output.
- `src/audio_sink.rs`: sink routing kinds, the sink interface, channel port
  naming and the per-channel port record.
- `src/decimal.rs`: decimal formatting of port numbers.

Sample types are generic, so the same proofs cover the `f32` samples used at
run time. `app/` holds the JACK client, the floating-point filters and
generators, and `main`.
