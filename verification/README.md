# matte

Whole-frame foreground matting as a verified Verus library. Each frame leaves
as one grayscale alpha: white where the subject is, black where the
background is, blended at the edges.

- `src/num.rs` says what single-precision arithmetic gives; `src/single.rs`
  computes it on bit patterns, in whole numbers.
- `src/taps.rs`, `src/pixels.rs`, `src/input.rs` take a frame to the tensor
  the graph reads.
- `src/alpha.rs` takes the graph's alpha back onto the frame's geometry.
- `src/session.rs`, `src/params.rs`, `src/window.rs` hold what an instance
  settles, what each reply of the graph calls for, and what leaves.
- `src/rounding.rs` and `src/arith.rs` hold the facts the proofs rest on.
- `app/` is the module as the host loads it: bindings, graph, and the loop
  over a window's frames. It builds against the wit from the installed
  `ffrwd/wasm` package.
