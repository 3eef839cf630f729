# felys

The middle and back end of the Felys programming language, with their
behaviour stated as contracts and proved with Verus, and the machine that runs
the bytecode they produce.

## Layout

- `src/ir.rs`, `src/eval.rs`, `src/context.rs`: the SSA form (labels,
  instructions, fragments, functions), constant folding, the constant lattice
  and the variable renamer.
- `src/analyze.rs`: sparse conditional constant propagation. On success the
  reached fragments are closed under the edges their terminators make
  executable and the values are a fixed point of the transfer functions.
- `src/rewrite.rs`, `src/rename.rs`, `src/sweep.rs`, `src/compact.rs`,
  `src/optimize.rs`: constant folding into the code, trivial phi removal, dead
  code elimination, jump threading, and the rounds of the optimizer.
- `src/codegen.rs`, `src/copies.rs`, `src/register.rs`, `src/generate.rs`:
  critical edge splitting, phis turned into sequential copies, linear-scan
  register allocation and code layout.
- `src/liveness.rs`: what each fragment reads before writing, and the least
  solution of the liveness equations.
- `src/bytecode.rs`, `src/format.rs`, `src/dump.rs`, `src/load.rs`: the
  bytecode, its binary encoding, and the proof that loading a dumped program
  gives it back.
- `src/runtime.rs`: the objects and the machine, one step at a time.
- `src/stream.rs`, `src/packrat.rs`: the text reader and the packrat parser
  state with its memo.
- `src/matrix.rs`, `src/optim.rs`, `src/layers.rs`: matrices over any
  copyable cell type with the arithmetic of the cells passed in, the gathering
  of gradients, and the layers of automatic differentiation with their
  backward pass, never refused on values built by the layers.
- `app/`: the runner (loads a program, drives the machine, prints the
  result), the text of objects and faults, and training over `f64`: the
  cross-entropy layer, whose softmax is floating point, and gradient descent
  with momentum.
