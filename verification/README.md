# plock

A headless Elektron-style step sequencer whose engine is verified with Verus.

The host owns time and presentation: it calls `Sequencer::tick()` once per
sixteenth note and schedules the returned events. The sequencer is a
deterministic state machine over plain data: sixteen tracks of up to 128
steps, per-step trig conditions, micro-timing, swing, retrig trains, a
per-pattern pool of at most 80 parameter-lock lanes, and quantized pattern
chaining.

## Layout

```
src/            the verified library
  unit.rs       UnitValue: a number in 0..=1 held as its single-precision bit
                pattern; the exact probability comparison behind Percent trigs
  ramp.rs       retrig velocity ramps as exact single-precision arithmetic
  rng.rs        PCG32
  condition.rs  trig conditions
  retrig.rs     retrig rates, lengths and velocity ramps
  step.rs       steps and micro-timing
  track.rs      tracks, default parameters, pages
  locks.rs      the lock pool and step resolution
  persist.rs    the sparse stored form of the lock pool and its validation
  pattern.rs    patterns, swing, change length, the lock API
  output.rs     events and the stable ordering of a tick's output
  sequencer.rs  transport, conditions, trains, chaining; `tick_spec`, the
                abstract tick that `Sequencer::tick` is proved to follow
  laws.rs       laws of playback proved over `tick_spec`
tests/          behaviour tests, run against the compiled library
app/            host-side code: number conversions, serde mirrors of the
                pattern data, error messages, a demo host that sleeps
```

## Numbers

Velocities, lane values, lock values and probabilities are `UnitValue`s: the
library stores the IEEE-754 single-precision bit pattern of a number in
`0.0..=1.0` and never rounds it. `UnitValue::from_bits(x.to_bits())` clamps
any number into range (NaN becomes 0); `f32::from_bits(u.to_bits())` reads it
back. Retrig velocity ramps are stored the same way in `-1.0..=1.0`. The one
place where the engine computes with such numbers, the per-hit velocity of a
ramped train, is specified and implemented as single-precision arithmetic
with round-to-nearest-even, bit for bit.

## What is proved

Every public function states its result in its `ensures`. In particular
`Sequencer::tick` is proved to produce exactly `tick_spec` of the state it
starts from, and `laws.rs` proves, over `tick_spec`, that a tick emits at
most 160 events, all in the step window and ordered by offset and track, that
ticks never edit patterns, that playheads advance by one step, that the PRNG
is untouched without probability trigs, that spilled events never overflow
their buffer, that two sequencers created with the same seed play alike, and
that reseeding and pressing play replays a take. `locks.rs` pins down where
the pool puts a new slot and that freeing slots keeps the others in order, so
that locking an unlocked step and clearing it again restores the pool
exactly; `rng.rs` proves that distinct seeds give distinct generator states;
`persist.rs` proves that storing a lock pool and loading it back gives the
same pool.
