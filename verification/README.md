# sculk_vibrations

Game events, vibrations and sculk sensors of a block world, verified with Verus.

- `src/binary64` holds IEEE 754 binary64 arithmetic in integers. Positions and
  distances are bit patterns, and every operation is stated exactly.
- `src/position.rs`, `src/block.rs` and `src/event.rs` hold block positions,
  what vibrations have to know of a block, and the events with their
  frequencies.
- `src/distance.rs` and `src/reach.rs` say how far a vibration gets, and how
  strong it arrives.
- `src/occlusion.rs` says what stands in its way: blocks that the exact ray
  passes through (`src/ray.rs`), or into which a point falls that is taken every
  half block (`src/sampling.rs`; `src/touch.rs` shows that such points do not
  stray from the ray).
- `src/emission.rs` and `src/offer.rs` go from an event to the sensors that may
  hear it, and to what becomes of it there.
- `src/sculk_sensor.rs` is the sensor block: its states, signals and life cycle.
- `src/calibrated_sculk_sensor.rs` and `src/nbt.rs` are the block entity of a
  calibrated sensor, and how it is stored.
- `src/particle.rs` is the particle that shows a vibration, and its wire format.

The library decides and the caller acts: what changes the world comes back as a
list of effects. `app/` performs them in an asynchronous server.
