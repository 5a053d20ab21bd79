# bf

A Brainfuck toolkit verified with Verus: parsing, three program representations with their
optimizers, two step interpreters, a C emitter and WebAssembly encoders.

## Layout

- `src/parse.rs`, `src/token.rs`, `src/instruction.rs`: tokens, trees of runs and loops
  (`Node`, `Nod`), and the instructions of each representation with their effect on a tape.
- `src/ir.rs`, `src/opt.rs`: the block representation and its passes (fusing, clearing,
  unwrapping, multiplication loops, conditionals, offsets, scans).
- `src/ir_semantics.rs`: what a block does to an unbounded tape, and the laws that each pass,
  and the whole optimizer, keep it.
- `src/interpreter/`: the block interpreter over a flattened program;
  `interpreter/simulation.rs` proves that a halting run ends where the block semantics says.
- `src/interprinter.rs`, `src/nod_semantics.rs`: the step interpreter over trees of nodes and
  the proof that its halting runs follow the node semantics.
- `src/optimize/`, `src/node_optimize.rs`, `src/optimize_new_node.rs`: the pattern optimizers;
  `optimize/rewrites.rs`, `nod_passes.rs` and `nod_rewrites.rs` prove what their rewrites keep,
  and `offset_semantics.rs` and `flush_semantics.rs` prove what the two offset passes over trees
  of nodes keep.
- `src/transcompile.rs`, `src/transpile/`: C text and WebAssembly binary encodings.
- `app/`: the command line (file I/O, argument parsing, logging).
