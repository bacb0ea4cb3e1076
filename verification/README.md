# webgpu_hal

The verified core of a browser WebGPU backend for a BabyBear STARK prover.
Everything under `src/` is checked by Verus; `app/` is the browser glue
around it (console output, timers, JavaScript values, readback copies).

## Layout of `src/`

- `eval_check/`: compiling the check polynomial for the GPU.
  - `tape`: the step tape, its error type, taps.
  - `program`: the fp/mix program form of a tape, its terms, the fp values
    the terms need, and the split of the terms into chunks.
  - `reorder`: lazy reordering of the fp steps next to their first use.
  - `powers`: mix powers, zerofier inverses, extension constants.
  - `slots`: last uses of values and the scratch-slot allocator, with the
    laws that every read finds the value it needs.
  - `unrolled`, `slotted`, `split`: WGSL shaders compiled per polynomial.
  - `interpreter`, `hybrid`, `interpreter_wgsl`: the instruction streams of
    the extension-field and base-field interpreters and their shaders.
  - `route`: which shader path a polynomial takes.
- `tile_layout`: tiling of column matrices too large for one binding.
- `dispatch`, `readback`, `limits`: sizes, bounds, sparse uploads,
  readback plans and device limits.
- `batch_evaluate`, `group_chunks`, `gather_chunks`, `mix_chunks`, `ntt_steps`, `ntt`:
  the chunking and parameter tables of the GPU kernels.
- `diagnostics`, `runtime`: usage counters and per-thread switches.
- `field`, `text`: BabyBear words (through `risc0-core`) and decimal text.
