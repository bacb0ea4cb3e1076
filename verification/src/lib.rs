//! Verified core of a browser WebGPU backend for a BabyBear STARK prover:
//! tiling of oversized column matrices, backend usage counters, buffer and
//! readback planning, and compilation of the check-polynomial tape.

pub mod tile_layout;
pub mod eval_check;
pub mod diagnostics;
pub mod text;
pub mod runtime;
pub mod dispatch;
pub mod field;
pub mod readback;
pub mod limits;
pub mod ntt;
pub mod batch_evaluate;
pub mod group_chunks;
pub mod gather_chunks;
pub mod ntt_steps;
pub mod mix_chunks;
