# gaussian_blur

Gaussian blur for RGBA images, verified with Verus.

- `src/float` computes with binary32 numbers held as bit patterns: sums, products, quotients
  and square roots are proved to be rounded to the nearest number, ties to even, or cut off.
- `src/kernel.rs`, `src/separable.rs`, `src/simd.rs` and `src/window.rs` are the blurs on the
  processor; `src/blur.rs` and `src/unified.rs` are how they are used.
- `src/bytes.rs` and `src/image_io.rs` turn images into bytes and buffers and back.
- `src/gpu` plans, checks and unpacks the blurs of a graphics processor.
- `src/laws.rs`, `src/brightness.rs`, `src/accuracy.rs`, `src/monotone.rs`, `src/identity.rs`,
  `src/sigma_one.rs`, `src/window_laws.rs` and `src/processor_laws.rs` state what holds of the
  blurs as a whole.
- `app` is the command line tool. It reads and writes files, supplies the exponential
  function and drives the devices. It loads the shaders from a directory `shaders`.
